//! The reward engine: task registry, payment ledger, per-wallet task state
//! machine, epoch snapshot builder, proof service and claim lifecycle.
//!
//! The engine holds every entity in plain in-memory stores injected into it by
//! its host (construct one with `new`, persist it outside); the hosting
//! environment serializes the state-mutating calls. Authorization and the
//! clock are supplied by the caller (`is_admin`, `now`, `ts` parameters).

use vstd::prelude::*;
use crate::address::decode_wallet_base58;
use crate::address::wallet_bytes;
use crate::address::wallet_is_valid;
use crate::hashing::compute_leaf_hash;
use crate::hashing::leaf_hash;
use crate::merkle::layer_at;
use crate::merkle::layer_size;
use crate::merkle::merkle_root;
use crate::merkle::num_layers;
use crate::order::str_eq;
use crate::types::LayerOffset;
use crate::types::EpochLayerKey;
use crate::types::EpochWalletKey;
use crate::types::MerkleHash;
use crate::types::MerkleSnapshotMeta;
use crate::types::MerkleSnapshotMetaView;
use crate::types::PaymentRecord;
use crate::types::PaymentRecordView;
use crate::types::TaskContractItem;
use crate::types::TaskContractItemView;
use crate::types::TaskStatus;
use crate::types::UserTaskDetail;
use crate::types::UserTaskDetailView;
use crate::types::UserTaskState;
use crate::types::UserTaskStateView;
use crate::types::RewardError;
use crate::types::status_step_ok;
use crate::types::unclaimed_part;
use crate::types::unclaimed_sum;
use crate::types::completed_sum;

verus! {

// ===== Keyed lookups over the engine's stores =====
/// Whether the registry holds a task with the given identifier.
pub open spec fn has_task(c: Seq<TaskContractItemView>, tid: Seq<char>) -> bool {
    exists|i: int| 0 <= i < c.len() && (#[trigger] c[i]).taskid == tid
}

/// Position of the task with the given identifier.
pub open spec fn task_index(c: Seq<TaskContractItemView>, tid: Seq<char>) -> int {
    choose|i: int| 0 <= i < c.len() && (#[trigger] c[i]).taskid == tid
}

/// The registry entry of the given task identifier.
pub open spec fn task_of(c: Seq<TaskContractItemView>, tid: Seq<char>) -> TaskContractItemView {
    c[task_index(c, tid)]
}

/// Whether some tracked wallet state belongs to the given wallet.
pub open spec fn has_user(us: Seq<UserTaskStateView>, w: Seq<char>) -> bool {
    exists|i: int| 0 <= i < us.len() && (#[trigger] us[i]).wallet == w
}

/// Position of the given wallet's state.
pub open spec fn user_index(us: Seq<UserTaskStateView>, w: Seq<char>) -> int {
    choose|i: int| 0 <= i < us.len() && (#[trigger] us[i]).wallet == w
}

/// The given wallet's tracked state.
pub open spec fn user_of(us: Seq<UserTaskStateView>, w: Seq<char>) -> UserTaskStateView {
    us[user_index(us, w)]
}

/// Whether a task list holds a task with the given identifier.
pub open spec fn has_utask(ts: Seq<UserTaskDetailView>, tid: Seq<char>) -> bool {
    exists|i: int| 0 <= i < ts.len() && (#[trigger] ts[i]).taskid == tid
}

/// Position of the given task in a task list.
pub open spec fn utask_index(ts: Seq<UserTaskDetailView>, tid: Seq<char>) -> int {
    choose|i: int| 0 <= i < ts.len() && (#[trigger] ts[i]).taskid == tid
}

/// The given task's per-wallet state within a task list.
pub open spec fn utask_of(ts: Seq<UserTaskDetailView>, tid: Seq<char>) -> UserTaskDetailView {
    ts[utask_index(ts, tid)]
}

/// Whether a snapshot exists for the given epoch.
pub open spec fn has_meta(ms: Seq<MerkleSnapshotMetaView>, e: u64) -> bool {
    exists|i: int| 0 <= i < ms.len() && (#[trigger] ms[i]).epoch == e
}

/// Position of the given epoch's snapshot metadata.
pub open spec fn meta_index(ms: Seq<MerkleSnapshotMetaView>, e: u64) -> int {
    choose|i: int| 0 <= i < ms.len() && (#[trigger] ms[i]).epoch == e
}

/// The given epoch's snapshot metadata.
pub open spec fn meta_of(ms: Seq<MerkleSnapshotMetaView>, e: u64) -> MerkleSnapshotMetaView {
    ms[meta_index(ms, e)]
}

/// Whether the offset index holds the given (epoch, layer) pair.
pub open spec fn has_offset(s: Seq<(EpochLayerKey, LayerOffset)>, e: u64, l: u32) -> bool {
    exists|i: int|
        0 <= i < s.len() && (#[trigger] s[i]).0.epoch == e && s[i].0.layer_id == l
}

/// The stored offset of the given (epoch, layer) pair.
pub open spec fn offset_of(s: Seq<(EpochLayerKey, LayerOffset)>, e: u64, l: u32) -> LayerOffset {
    s[choose|i: int| 0 <= i < s.len() && (#[trigger] s[i]).0.epoch == e && s[i].0.layer_id == l].1
}

/// One keyed record of the wallet leaf index: ((epoch, wallet), (index,
/// amount)).
pub type WalletLeaf = ((u64, Seq<char>), (u64, u64));

/// Whether the leaf index holds the given (epoch, wallet) pair.
pub open spec fn has_leaf(s: Seq<WalletLeaf>, e: u64, w: Seq<char>) -> bool {
    exists|i: int| 0 <= i < s.len() && (#[trigger] s[i]).0.0 == e && s[i].0.1 == w
}

/// The (index, amount) pair stored for the given (epoch, wallet) pair.
pub open spec fn leaf_of(s: Seq<WalletLeaf>, e: u64, w: Seq<char>) -> (u64, u64) {
    s[choose|i: int| 0 <= i < s.len() && (#[trigger] s[i]).0.0 == e && s[i].0.1 == w].1
}

/// Whether some epoch's leaf index holds the given wallet at all.
pub open spec fn has_any_leaf(s: Seq<WalletLeaf>, w: Seq<char>) -> bool {
    exists|i: int| 0 <= i < s.len() && (#[trigger] s[i]).0.1 == w
}

// ===== Uniqueness of each store's keys =====
pub open spec fn tasks_unique(c: Seq<TaskContractItemView>) -> bool {
    forall|i: int, j: int|
        0 <= i < j < c.len() ==> (#[trigger] c[i]).taskid != (#[trigger] c[j]).taskid
}

pub open spec fn users_unique(us: Seq<UserTaskStateView>) -> bool {
    forall|i: int, j: int|
        0 <= i < j < us.len() ==> (#[trigger] us[i]).wallet != (#[trigger] us[j]).wallet
}

pub open spec fn metas_unique(ms: Seq<MerkleSnapshotMetaView>) -> bool {
    forall|i: int, j: int|
        0 <= i < j < ms.len() ==> (#[trigger] ms[i]).epoch != (#[trigger] ms[j]).epoch
}

pub open spec fn offsets_unique(s: Seq<(EpochLayerKey, LayerOffset)>) -> bool {
    forall|i: int, j: int|
        0 <= i < j < s.len() ==> ((#[trigger] s[i]).0.epoch != (#[trigger] s[j]).0.epoch
            || s[i].0.layer_id != s[j].0.layer_id)
}

pub open spec fn windex_unique(s: Seq<WalletLeaf>) -> bool {
    forall|i: int, j: int|
        0 <= i < j < s.len() ==> ((#[trigger] s[i]).0.0 != (#[trigger] s[j]).0.0
            || s[i].0.1 != s[j].0.1)
}

/// The registry is kept strictly ascending by task identifier, so listing it
/// enumerates tasks in key order.
pub open spec fn tasks_sorted(c: Seq<TaskContractItemView>) -> bool {
    forall|i: int, j: int|
        0 <= i < j < c.len() ==> crate::order::chars_lt(
            (#[trigger] c[i]).taskid,
            (#[trigger] c[j]).taskid,
        )
}

/// Snapshot metadata is kept strictly ascending by epoch, so listing it
/// enumerates epochs in key order.
pub open spec fn metas_sorted(ms: Seq<MerkleSnapshotMetaView>) -> bool {
    forall|i: int, j: int|
        0 <= i < j < ms.len() ==> (#[trigger] ms[i]).epoch < (#[trigger] ms[j]).epoch
}

// ===== Per-user well-formedness =====
/// A tracked wallet state is well formed: its wallet is a valid address, its
/// task identifiers are unique, and its cached total equals the sum of the
/// pinned rewards over its RewardPrepared and TicketIssued tasks.
pub open spec fn user_wf(u: UserTaskStateView) -> bool {
    &&& wallet_is_valid(u.wallet)
    &&& u.total_unclaimed as int == unclaimed_sum(u.tasks)
    &&& forall|i: int, j: int|
        0 <= i < j < u.tasks.len() ==> (#[trigger] u.tasks[i]).taskid != (
        #[trigger] u.tasks[j]).taskid
}

/// Task list of a freshly materialized wallet: one task per registry entry,
/// NotStarted, nothing completed and no reward pinned yet.
pub open spec fn fresh_tasks(c: Seq<TaskContractItemView>) -> Seq<UserTaskDetailView> {
    Seq::new(
        c.len(),
        |i: int|
            UserTaskDetailView {
                taskid: c[i].taskid,
                status: TaskStatus::NotStarted,
                completed_at: 0,
                reward_amount: 0,
                evidence: None,
            },
    )
}

/// A freshly materialized wallet state.
pub open spec fn fresh_user(w: Seq<char>, c: Seq<TaskContractItemView>) -> UserTaskStateView {
    UserTaskStateView { wallet: w, tasks: fresh_tasks(c), total_unclaimed: 0 }
}

/// A task list in which no task counts as unclaimed sums to zero.
pub proof fn lemma_unclaimed_sum_zero(ts: Seq<UserTaskDetailView>)
    requires
        forall|i: int| 0 <= i < ts.len() ==> unclaimed_part(#[trigger] ts[i]) == 0,
    ensures
        unclaimed_sum(ts) == 0,
    decreases ts.len(),
{
    if ts.len() > 0 {
        assert(forall|i: int|
            0 <= i < ts.drop_last().len() ==> unclaimed_part(#[trigger] ts.drop_last()[i]) == 0);
        lemma_unclaimed_sum_zero(ts.drop_last());
    }
}

// ===== Transition chain (the lifecycle law) =====
/// Task-by-task, a wallet's state moves only along the lifecycle chain.
pub open spec fn user_steps_ok(a: UserTaskStateView, b: UserTaskStateView) -> bool {
    &&& a.tasks.len() == b.tasks.len()
    &&& forall|i: int|
        0 <= i < a.tasks.len() ==> status_step_ok(
            (#[trigger] a.tasks[i]).status,
            (#[trigger] b.tasks[i]).status,
        )
}

/// No task status of any tracked wallet ever moves except along the monotone
/// lifecycle chain, with the single sanctioned backward edge TicketIssued ->
/// RewardPrepared on a reported claim failure.
pub open spec fn engine_steps_ok(a: Seq<UserTaskStateView>, b: Seq<UserTaskStateView>) -> bool {
    forall|w: Seq<char>|
        #[trigger] has_user(a, w) ==> has_user(b, w) && user_steps_ok(user_of(a, w), user_of(b, w))
}

// ===== The engine =====
/// All state of the reward engine.
pub struct RewardEngine {
    /// The task registry, keyed by task identifier.
    pub contract: Vec<TaskContractItem>,
    /// Per-wallet task state, keyed by wallet.
    pub users: Vec<UserTaskState>,
    /// The append-only payment ledger.
    pub payments: Vec<PaymentRecord>,
    /// Snapshot metadata, keyed by epoch.
    pub epoch_meta: Vec<MerkleSnapshotMeta>,
    /// Every Merkle layer of every epoch, one contiguous sequence of hashes.
    pub layers: Vec<MerkleHash>,
    /// Start offset and length of each (epoch, layer) pair within `layers`.
    pub layer_offsets: Vec<(EpochLayerKey, LayerOffset)>,
    /// (index, amount) of each (epoch, wallet) leaf.
    pub wallet_index: Vec<(EpochWalletKey, (u64, u64))>,
}

impl RewardEngine {
    pub open spec fn contract_v(self) -> Seq<TaskContractItemView> {
        self.contract@.map_values(|t: TaskContractItem| t@)
    }

    pub open spec fn users_v(self) -> Seq<UserTaskStateView> {
        self.users@.map_values(|u: UserTaskState| u@)
    }

    pub open spec fn payments_v(self) -> Seq<PaymentRecordView> {
        self.payments@.map_values(|p: PaymentRecord| p@)
    }

    pub open spec fn metas_v(self) -> Seq<MerkleSnapshotMetaView> {
        self.epoch_meta@.map_values(|m: MerkleSnapshotMeta| m@)
    }

    pub open spec fn layers_v(self) -> Seq<Seq<u8>> {
        self.layers@.map_values(|h: MerkleHash| h@)
    }

    pub open spec fn offsets_v(self) -> Seq<(EpochLayerKey, LayerOffset)> {
        self.layer_offsets@
    }

    pub open spec fn windex_v(self) -> Seq<WalletLeaf> {
        self.wallet_index@.map_values(
            |p: (EpochWalletKey, (u64, u64))| ((p.0.epoch, p.0.wallet@), p.1),
        )
    }

    /// The stored nodes of one layer of one epoch's tree.
    pub open spec fn epoch_layer(self, e: u64, l: u32) -> Seq<Seq<u8>> {
        let off = offset_of(self.offsets_v(), e, l);
        self.layers_v().subrange(off.start as int, off.start as int + off.len as int)
    }

    /// Integrity of one frozen snapshot: every layer is stored, sized by the
    /// halving profile, each layer is the pairing of the one below, the root
    /// recorded in the metadata is the root of the stored tree, and every
    /// leaf-index record points at the leaf hash of its wallet and amount.
    pub open spec fn epoch_wf(self, m: MerkleSnapshotMetaView) -> bool {
        let n = m.leaves_count as nat;
        let ls = num_layers(n);
        &&& 1 <= m.leaves_count <= u32::MAX as u64
        &&& m.root.len() == 32
        &&& forall|l: u32| (l as nat) < ls ==> #[trigger] has_offset(self.offsets_v(), m.epoch, l)
        &&& forall|l: u32|
            (l as nat) < ls ==> {
                let off = #[trigger] offset_of(self.offsets_v(), m.epoch, l);
                off.start as int + off.len as int <= self.layers_v().len() && off.len as nat
                    == layer_size(n, l as nat)
            }
        &&& forall|l: u32|
            (l as nat) < ls ==> #[trigger] self.epoch_layer(m.epoch, l) == layer_at(
                self.epoch_layer(m.epoch, 0),
                l as nat,
            )
        &&& merkle_root(self.epoch_layer(m.epoch, 0)) == m.root
        &&& forall|i: int|
            0 <= i < self.windex_v().len() && (#[trigger] self.windex_v()[i]).0.0 == m.epoch ==> {
                let w = self.windex_v()[i].0.1;
                let idx = self.windex_v()[i].1.0;
                let amt = self.windex_v()[i].1.1;
                &&& (idx as int) < m.leaves_count
                &&& wallet_is_valid(w)
                &&& self.epoch_layer(m.epoch, 0)[idx as int] == leaf_hash(
                    m.epoch,
                    idx,
                    wallet_bytes(w),
                    amt,
                )
            }
    }

    /// Well-formedness of the whole engine: unique keys in every store, every
    /// tracked wallet state well formed (in particular, its cached total
    /// equals the sum over its RewardPrepared and TicketIssued tasks), every
    /// frozen snapshot intact, and every index entry tied to a snapshot.
    pub open spec fn wf(self) -> bool {
        &&& tasks_unique(self.contract_v())
        &&& tasks_sorted(self.contract_v())
        &&& users_unique(self.users_v())
        &&& forall|i: int| 0 <= i < self.users_v().len() ==> user_wf(#[trigger] self.users_v()[i])
        &&& metas_unique(self.metas_v())
        &&& metas_sorted(self.metas_v())
        &&& offsets_unique(self.offsets_v())
        &&& windex_unique(self.windex_v())
        &&& forall|i: int|
            0 <= i < self.metas_v().len() ==> self.epoch_wf(#[trigger] self.metas_v()[i])
        &&& forall|i: int|
            0 <= i < self.offsets_v().len() ==> has_meta(
                self.metas_v(),
                (#[trigger] self.offsets_v()[i]).0.epoch,
            ) && ((self.offsets_v()[i].0.layer_id as nat) < num_layers(
                meta_of(self.metas_v(), self.offsets_v()[i].0.epoch).leaves_count as nat,
            ))
        &&& forall|i: int|
            0 <= i < self.windex_v().len() ==> has_meta(
                self.metas_v(),
                (#[trigger] self.windex_v()[i]).0.0,
            )
        &&& forall|i: int|
            0 <= i < self.layers_v().len() ==> (#[trigger] self.layers_v()[i]).len() == 32
    }

    /// Stores other than the wallet states are unchanged.
    pub open spec fn same_but_users(a: RewardEngine, b: RewardEngine) -> bool {
        &&& a.contract_v() == b.contract_v()
        &&& a.payments_v() == b.payments_v()
        &&& a.metas_v() == b.metas_v()
        &&& a.layers_v() == b.layers_v()
        &&& a.offsets_v() == b.offsets_v()
        &&& a.windex_v() == b.windex_v()
    }

    /// Nothing in the engine changed.
    pub open spec fn same_state(a: RewardEngine, b: RewardEngine) -> bool {
        &&& Self::same_but_users(a, b)
        &&& a.users_v() == b.users_v()
    }

    /// An engine with every store empty.
    pub fn new() -> (r: RewardEngine)
        ensures
            r.wf(),
            r.contract_v() == Seq::<TaskContractItemView>::empty(),
            r.users_v() == Seq::<UserTaskStateView>::empty(),
            r.payments_v() == Seq::<PaymentRecordView>::empty(),
            r.metas_v() == Seq::<MerkleSnapshotMetaView>::empty(),
            r.windex_v() == Seq::<WalletLeaf>::empty(),
    {
        let r = RewardEngine {
            contract: Vec::new(),
            users: Vec::new(),
            payments: Vec::new(),
            epoch_meta: Vec::new(),
            layers: Vec::new(),
            layer_offsets: Vec::new(),
            wallet_index: Vec::new(),
        };
        proof {
            assert(r.contract_v() =~= Seq::<TaskContractItemView>::empty());
            assert(r.users_v() =~= Seq::<UserTaskStateView>::empty());
            assert(r.payments_v() =~= Seq::<PaymentRecordView>::empty());
            assert(r.metas_v() =~= Seq::<MerkleSnapshotMetaView>::empty());
            assert(r.layers_v() =~= Seq::<Seq<u8>>::empty());
            assert(r.windex_v() =~= Seq::<WalletLeaf>::empty());
        }
        r
    }

    /// Position of the given wallet's tracked state, where one exists.
    fn find_user_index(&self, wallet: &str) -> (r: Option<usize>)
        ensures
            (match r {
                Some(i) => i < self.users_v().len() && self.users_v()[i as int].wallet == wallet@,
                None => !has_user(self.users_v(), wallet@),
            }),
    {
        let n = self.users.len();
        let mut i: usize = 0;
        while i < n
            invariant
                i <= n,
                n == self.users_v().len(),
                forall|j: int| 0 <= j < i ==> (#[trigger] self.users_v()[j]).wallet != wallet@,
            decreases n - i,
        {
            if str_eq(self.users[i].wallet.as_str(), wallet) {
                return Some(i);
            }
            i = i + 1;
        }
        None
    }

    /// Position of the given task in the registry, where one exists.
    fn find_task_index(&self, taskid: &str) -> (r: Option<usize>)
        ensures
            (match r {
                Some(i) => i < self.contract_v().len() && self.contract_v()[i as int].taskid
                    == taskid@,
                None => !has_task(self.contract_v(), taskid@),
            }),
    {
        let n = self.contract.len();
        let mut i: usize = 0;
        while i < n
            invariant
                i <= n,
                n == self.contract_v().len(),
                forall|j: int| 0 <= j < i ==> (#[trigger] self.contract_v()[j]).taskid != taskid@,
            decreases n - i,
        {
            if str_eq(self.contract[i].taskid.as_str(), taskid) {
                return Some(i);
            }
            i = i + 1;
        }
        None
    }

    /// Position of the given epoch's metadata, where one exists.
    fn find_meta_index(&self, epoch: u64) -> (r: Option<usize>)
        ensures
            (match r {
                Some(i) => i < self.metas_v().len() && self.metas_v()[i as int].epoch == epoch,
                None => !has_meta(self.metas_v(), epoch),
            }),
    {
        let n = self.epoch_meta.len();
        let mut i: usize = 0;
        while i < n
            invariant
                i <= n,
                n == self.metas_v().len(),
                forall|j: int| 0 <= j < i ==> (#[trigger] self.metas_v()[j]).epoch != epoch,
            decreases n - i,
        {
            if self.epoch_meta[i].epoch == epoch {
                return Some(i);
            }
            i = i + 1;
        }
        None
    }

    /// The stored offset of the given (epoch, layer) pair, where one exists.
    #[verifier::loop_isolation(false)]
    fn find_offset(&self, epoch: u64, layer_id: u32) -> (r: Option<LayerOffset>)
        requires
            offsets_unique(self.offsets_v()),
        ensures
            (match r {
                Some(off) => has_offset(self.offsets_v(), epoch, layer_id) && off == offset_of(
                    self.offsets_v(),
                    epoch,
                    layer_id,
                ),
                None => !has_offset(self.offsets_v(), epoch, layer_id),
            }),
    {
        let n = self.layer_offsets.len();
        let mut i: usize = 0;
        while i < n
            invariant
                i <= n,
                n == self.offsets_v().len(),
                forall|j: int|
                    0 <= j < i ==> !((#[trigger] self.offsets_v()[j]).0.epoch == epoch
                        && self.offsets_v()[j].0.layer_id == layer_id),
            decreases n - i,
        {
            let k = self.layer_offsets[i].0;
            if k.epoch == epoch && k.layer_id == layer_id {
                let off = self.layer_offsets[i].1;
                proof {
                    assert(has_offset(self.offsets_v(), epoch, layer_id));
                    let c = choose|j: int|
                        0 <= j < self.offsets_v().len() && (#[trigger] self.offsets_v()[j]).0.epoch
                            == epoch && self.offsets_v()[j].0.layer_id == layer_id;
                    assert(0 <= c < self.offsets_v().len() && self.offsets_v()[c].0.epoch == epoch
                        && self.offsets_v()[c].0.layer_id == layer_id);
                    let a = self.offsets_v()[c];
                    let b = self.offsets_v()[i as int];
                    if c != i as int {
                        assert(a.0.epoch != b.0.epoch || a.0.layer_id != b.0.layer_id);
                    }
                    assert(c == i as int);
                }
                return Some(off);
            }
            i = i + 1;
        }
        None
    }

    /// Returns a copy of the task registry, in ascending task-identifier
    /// order.
    pub fn get_task_contract(&self) -> (r: Vec<TaskContractItem>)
        requires
            self.wf(),
        ensures
            r@.map_values(|t: TaskContractItem| t@) == self.contract_v(),
            tasks_sorted(r@.map_values(|t: TaskContractItem| t@)),
    {
        let n = self.contract.len();
        let mut r: Vec<TaskContractItem> = Vec::new();
        let mut i: usize = 0;
        while i < n
            invariant
                i <= n,
                n == self.contract@.len(),
                r@.len() == i,
                forall|j: int| 0 <= j < i ==> (#[trigger] r@[j])@ == self.contract_v()[j],
            decreases n - i,
        {
            r.push(self.contract[i].clone());
            i = i + 1;
        }
        proof {
            assert(r@.map_values(|t: TaskContractItem| t@) =~= self.contract_v());
        }
        r
    }

    /// Returns the metadata of the given epoch's snapshot, or None where no
    /// snapshot was built for it.
    pub fn get_epoch_meta(&self, epoch: u64) -> (r: Option<MerkleSnapshotMeta>)
        requires
            self.wf(),
        ensures
            (match r {
                Some(m) => has_meta(self.metas_v(), epoch) && m@ == meta_of(
                    self.metas_v(),
                    epoch,
                ),
                None => !has_meta(self.metas_v(), epoch),
            }),
    {
        match self.find_meta_index(epoch) {
            Some(i) => {
                let m = self.epoch_meta[i].clone();
                proof {
                    assert(has_meta(self.metas_v(), epoch));
                    let c = meta_index(self.metas_v(), epoch);
                    assert(0 <= c < self.metas_v().len() && self.metas_v()[c].epoch == epoch);
                    assert(c == i as int);
                }
                Some(m)
            },
            None => None,
        }
    }

    /// Returns a copy of every epoch's snapshot metadata, in ascending epoch
    /// order.
    pub fn list_all_epochs(&self) -> (r: Vec<MerkleSnapshotMeta>)
        requires
            self.wf(),
        ensures
            r@.map_values(|m: MerkleSnapshotMeta| m@) == self.metas_v(),
            metas_sorted(r@.map_values(|m: MerkleSnapshotMeta| m@)),
    {
        let n = self.epoch_meta.len();
        let mut r: Vec<MerkleSnapshotMeta> = Vec::new();
        let mut i: usize = 0;
        while i < n
            invariant
                i <= n,
                n == self.epoch_meta@.len(),
                r@.len() == i,
                forall|j: int| 0 <= j < i ==> (#[trigger] r@[j])@ == self.metas_v()[j],
            decreases n - i,
        {
            r.push(self.epoch_meta[i].clone());
            i = i + 1;
        }
        proof {
            assert(r@.map_values(|m: MerkleSnapshotMeta| m@) =~= self.metas_v());
        }
        r
    }
}

/// In a well-formed engine, every tracked wallet's cached unclaimed total
/// equals the sum of the pinned rewards over its RewardPrepared and
/// TicketIssued tasks; as every mutating operation keeps the engine well
/// formed, the cache is right after every call in any sequence.
pub proof fn lemma_cached_total_is_unclaimed_sum(e: RewardEngine, w: Seq<char>)
    requires
        e.wf(),
        has_user(e.users_v(), w),
    ensures
        user_of(e.users_v(), w).total_unclaimed as int == unclaimed_sum(
            user_of(e.users_v(), w).tasks,
        ),
{
    let i = user_index(e.users_v(), w);
    assert(0 <= i < e.users_v().len() && e.users_v()[i].wallet == w);
    assert(user_wf(e.users_v()[i]));
}

// ===== Store-manipulation lemmas =====
/// Replacing the state at one wallet's position keeps wallets unique and
/// every other wallet's state unchanged.
pub proof fn lemma_users_update(s: Seq<UserTaskStateView>, k: int, u: UserTaskStateView)
    requires
        users_unique(s),
        0 <= k < s.len(),
        s[k].wallet == u.wallet,
    ensures
        users_unique(s.update(k, u)),
        has_user(s.update(k, u), u.wallet),
        user_of(s.update(k, u), u.wallet) == u,
        forall|w: Seq<char>|
            w != u.wallet ==> (#[trigger] has_user(s.update(k, u), w) == has_user(s, w)
                && (has_user(s, w) ==> user_of(s.update(k, u), w) == user_of(s, w))),
{
    let t = s.update(k, u);
    assert(t[k] == u);
    assert forall|w: Seq<char>| w != u.wallet implies (#[trigger] has_user(t, w) == has_user(s, w)
        && (has_user(s, w) ==> user_of(t, w) == user_of(s, w))) by {
        if has_user(s, w) {
            let i = user_index(s, w);
            assert(0 <= i < s.len() && s[i].wallet == w);
            assert(i != k);
            assert(t[i].wallet == w);
            assert(has_user(t, w));
            let j = user_index(t, w);
            assert(0 <= j < t.len() && t[j].wallet == w);
            assert(j != k);
            assert(s[j].wallet == w);
            if i != j {
                assert(s[i].wallet != s[j].wallet);
            }
        }
        if has_user(t, w) {
            let j = user_index(t, w);
            assert(0 <= j < t.len() && t[j].wallet == w);
            assert(j != k);
            assert(s[j].wallet == w);
            assert(has_user(s, w));
        }
    }
}

/// Appending a state under a fresh wallet keeps wallets unique and every
/// other wallet's state unchanged.
pub proof fn lemma_users_push(s: Seq<UserTaskStateView>, u: UserTaskStateView)
    requires
        users_unique(s),
        !has_user(s, u.wallet),
    ensures
        users_unique(s.push(u)),
        has_user(s.push(u), u.wallet),
        user_of(s.push(u), u.wallet) == u,
        forall|w: Seq<char>|
            w != u.wallet ==> (#[trigger] has_user(s.push(u), w) == has_user(s, w) && (has_user(
                s,
                w,
            ) ==> user_of(s.push(u), w) == user_of(s, w))),
{
    let t = s.push(u);
    assert(t[s.len() as int] == u);
    assert forall|i: int, j: int| 0 <= i < j < t.len() implies (#[trigger] t[i]).wallet != (
    #[trigger] t[j]).wallet by {
        if j < s.len() {
            assert(t[i] == s[i] && t[j] == s[j]);
        } else {
            assert(t[i] == s[i] && t[j] == u);
            assert(s[i].wallet != u.wallet);
        }
    }
    assert forall|w: Seq<char>| w != u.wallet implies (#[trigger] has_user(t, w) == has_user(s, w)
        && (has_user(s, w) ==> user_of(t, w) == user_of(s, w))) by {
        if has_user(s, w) {
            let i = user_index(s, w);
            assert(0 <= i < s.len() && s[i].wallet == w);
            assert(t[i].wallet == w);
            assert(has_user(t, w));
            let j = user_index(t, w);
            assert(0 <= j < t.len() && t[j].wallet == w);
            assert(j != s.len() as int);
            assert(s[j].wallet == w);
            if i != j {
                assert(s[i].wallet != s[j].wallet);
            }
        }
        if has_user(t, w) {
            let j = user_index(t, w);
            assert(0 <= j < t.len() && t[j].wallet == w);
            assert(j != s.len() as int);
            assert(s[j].wallet == w);
            assert(has_user(s, w));
        }
    }
}


// ===== Shared helpers of the mutating operations =====
/// View of an optional string.
pub open spec fn opt_view(o: Option<String>) -> Option<Seq<char>> {
    match o {
        Some(s) => Some(s@),
        None => None,
    }
}

/// One task as retagged by a bulk transition: tasks in the source status move
/// to the target status, every other task is untouched.
pub open spec fn retag(t: UserTaskDetailView, from: TaskStatus, to: TaskStatus) -> UserTaskDetailView {
    if t.status == from {
        UserTaskDetailView {
            taskid: t.taskid,
            status: to,
            completed_at: t.completed_at,
            reward_amount: t.reward_amount,
            evidence: t.evidence,
        }
    } else {
        t
    }
}

/// A task list as retagged by a bulk transition.
pub open spec fn retag_all(ts: Seq<UserTaskDetailView>, from: TaskStatus, to: TaskStatus) -> Seq<
    UserTaskDetailView,
> {
    Seq::new(ts.len(), |i: int| retag(ts[i], from, to))
}

/// A fresh registry entry slotted into its key-ordered place.
pub open spec fn sorted_task_insert(
    c: Seq<TaskContractItemView>,
    t: TaskContractItemView,
) -> Seq<TaskContractItemView>
    decreases c.len(),
{
    if c.len() == 0 {
        seq![t]
    } else if crate::order::chars_lt(t.taskid, c[0].taskid) {
        seq![t] + c
    } else {
        seq![c[0]] + sorted_task_insert(c.drop_first(), t)
    }
}

/// The task registry after upserting one entry by task identifier: an
/// existing entry is replaced in place, a fresh one is slotted into its
/// key-ordered place.
pub open spec fn upsert_task(c: Seq<TaskContractItemView>, t: TaskContractItemView) -> Seq<
    TaskContractItemView,
> {
    if has_task(c, t.taskid) {
        c.update(task_index(c, t.taskid), t)
    } else {
        sorted_task_insert(c, t)
    }
}

/// Inserting at the position scanned by the upsert is the key-ordered insert.
pub proof fn lemma_sorted_task_insert_at(
    c: Seq<TaskContractItemView>,
    t: TaskContractItemView,
    k: int,
)
    requires
        0 <= k <= c.len(),
        forall|j: int|
            0 <= j < k ==> !crate::order::chars_lt(t.taskid, (#[trigger] c[j]).taskid),
        k < c.len() ==> crate::order::chars_lt(t.taskid, c[k].taskid),
    ensures
        sorted_task_insert(c, t) == c.insert(k, t),
    decreases c.len(),
{
    if c.len() == 0 {
        assert(sorted_task_insert(c, t) =~= c.insert(0, t));
    } else if k == 0 {
        assert(sorted_task_insert(c, t) =~= c.insert(0, t));
    } else {
        assert(forall|j: int|
            0 <= j < k - 1 ==> !crate::order::chars_lt(
                t.taskid,
                (#[trigger] c.drop_first()[j]).taskid,
            ));
        if k < c.len() {
            assert(c.drop_first()[k - 1] == c[k]);
        }
        lemma_sorted_task_insert_at(c.drop_first(), t, k - 1);
        assert(seq![c[0]] + c.drop_first().insert(k - 1, t) =~= c.insert(k, t));
    }
}

/// Slotting a fresh entry into its key-ordered place keeps the registry
/// strictly sorted and duplicate-free.
pub proof fn lemma_tasks_insert_sorted(c: Seq<TaskContractItemView>, t: TaskContractItemView, k: int)
    requires
        tasks_sorted(c),
        !has_task(c, t.taskid),
        0 <= k <= c.len(),
        forall|j: int|
            0 <= j < k ==> !crate::order::chars_lt(t.taskid, (#[trigger] c[j]).taskid),
        k < c.len() ==> crate::order::chars_lt(t.taskid, c[k].taskid),
    ensures
        tasks_sorted(c.insert(k, t)),
        tasks_unique(c.insert(k, t)),
{
    let u = c.insert(k, t);
    assert forall|p: int| 0 <= p < u.len() implies u[p] == (if p < k {
        c[p]
    } else if p == k {
        t
    } else {
        c[p - 1]
    }) by {
        assert(c.insert(k, t) =~= c.take(k) + seq![t] + c.skip(k));
    }
    assert forall|j: int| 0 <= j < k implies crate::order::chars_lt(
        (#[trigger] c[j]).taskid,
        t.taskid,
    ) by {
        assert(c[j].taskid != t.taskid);
        crate::order::lemma_chars_lt_connected(c[j].taskid, t.taskid);
    }
    assert forall|i: int, j: int| 0 <= i < j < u.len() implies crate::order::chars_lt(
        (#[trigger] u[i]).taskid,
        (#[trigger] u[j]).taskid,
    ) by {
        if i == k && j > k {
            if j - 1 > k {
                crate::order::lemma_chars_lt_transitive(
                    t.taskid,
                    c[k].taskid,
                    c[j - 1].taskid,
                );
            }
        }
    }
    assert forall|i: int, j: int| 0 <= i < j < u.len() implies (#[trigger] u[i]).taskid != (
    #[trigger] u[j]).taskid by {
        crate::order::lemma_chars_lt_asymmetric(u[i].taskid, u[j].taskid);
        if u[i].taskid == u[j].taskid {
            assert(crate::order::chars_lt(u[i].taskid, u[j].taskid));
            assert(crate::order::chars_lt(u[j].taskid, u[i].taskid));
        }
    }
}

/// The task registry after upserting a list of entries, in order.
pub open spec fn upsert_tasks(
    c: Seq<TaskContractItemView>,
    ts: Seq<TaskContractItemView>,
) -> Seq<TaskContractItemView>
    decreases ts.len(),
{
    if ts.len() == 0 {
        c
    } else {
        upsert_tasks(upsert_task(c, ts[0]), ts.drop_first())
    }
}

/// The wallet states after a wallet is touched: unchanged where the wallet is
/// already tracked, extended by a freshly materialized state where it is not.
pub open spec fn users_after_touch(
    us: Seq<UserTaskStateView>,
    w: Seq<char>,
    c: Seq<TaskContractItemView>,
) -> Seq<UserTaskStateView> {
    if has_user(us, w) {
        us
    } else {
        us.push(fresh_user(w, c))
    }
}

/// A task's state once completed: status Completed, the completion timestamp
/// stamped, the reward pinned from the registry, the evidence recorded.
pub open spec fn completed_detail(
    tid: Seq<char>,
    reward: u64,
    ev: Option<Seq<char>>,
    ts: u64,
) -> UserTaskDetailView {
    UserTaskDetailView {
        taskid: tid,
        status: TaskStatus::Completed,
        completed_at: ts,
        reward_amount: reward,
        evidence: ev,
    }
}

/// Replacing the entry of one task identifier keeps identifiers unique.
pub proof fn lemma_tasks_update(s: Seq<TaskContractItemView>, k: int, t: TaskContractItemView)
    requires
        tasks_unique(s),
        0 <= k < s.len(),
        s[k].taskid == t.taskid,
    ensures
        tasks_unique(s.update(k, t)),
        has_task(s.update(k, t), t.taskid),
        task_index(s.update(k, t), t.taskid) == k,
{
    let u = s.update(k, t);
    assert(u[k] == t);
    assert(has_task(u, t.taskid));
    let c = task_index(u, t.taskid);
    assert(0 <= c < u.len() && u[c].taskid == t.taskid);
    if c != k {
        let a = s[c];
        let b = s[k];
        assert(u[c] == a);
        assert(a.taskid != b.taskid);
    }
}


/// Snapshot integrity only reads the snapshot stores: two engines that agree
/// on them validate the same snapshots.
pub proof fn lemma_epoch_wf_same(a: RewardEngine, b: RewardEngine, m: MerkleSnapshotMetaView)
    requires
        a.epoch_wf(m),
        b.metas_v() == a.metas_v(),
        b.layers_v() == a.layers_v(),
        b.offsets_v() == a.offsets_v(),
        b.windex_v() == a.windex_v(),
    ensures
        b.epoch_wf(m),
{
    assert forall|l: u32| #[trigger] b.epoch_layer(m.epoch, l) == a.epoch_layer(m.epoch, l) by {
        assert(offset_of(b.offsets_v(), m.epoch, l) == offset_of(a.offsets_v(), m.epoch, l));
    }
}

/// Changing only the registry, the wallet states or the payment ledger leaves
/// the engine well formed, provided the changed stores are themselves well
/// formed.
pub proof fn lemma_wf_outside_snapshots(a: RewardEngine, b: RewardEngine)
    requires
        a.wf(),
        tasks_unique(b.contract_v()),
        tasks_sorted(b.contract_v()),
        users_unique(b.users_v()),
        forall|i: int| 0 <= i < b.users_v().len() ==> user_wf(#[trigger] b.users_v()[i]),
        b.metas_v() == a.metas_v(),
        b.layers_v() == a.layers_v(),
        b.offsets_v() == a.offsets_v(),
        b.windex_v() == a.windex_v(),
    ensures
        b.wf(),
{
    assert forall|i: int| 0 <= i < b.metas_v().len() implies b.epoch_wf(
        #[trigger] b.metas_v()[i],
    ) by {
        assert(a.epoch_wf(a.metas_v()[i]));
        lemma_epoch_wf_same(a, b, b.metas_v()[i]);
    }
}

/// Recomputes the cached unclaimed total of a task list: the sum of the
/// pinned rewards over the tasks in RewardPrepared or TicketIssued status.
pub fn compute_total_unclaimed(tasks: &Vec<UserTaskDetail>) -> (r: u64)
    requires
        unclaimed_sum(tasks@.map_values(|t: UserTaskDetail| t@)) <= u64::MAX,
    ensures
        r as int == unclaimed_sum(tasks@.map_values(|t: UserTaskDetail| t@)),
{
    let ghost tv: Seq<UserTaskDetailView> = tasks@.map_values(|t: UserTaskDetail| t@);
    let n = tasks.len();
    let mut total: u64 = 0;
    let mut i: usize = 0;
    proof {
        assert(tv.take(0) =~= Seq::<UserTaskDetailView>::empty());
    }
    while i < n
        invariant
            i <= n,
            n == tv.len(),
            tv == tasks@.map_values(|t: UserTaskDetail| t@),
            unclaimed_sum(tv) <= u64::MAX,
            total as int == unclaimed_sum(tv.take(i as int)),
        decreases n - i,
    {
        proof {
            crate::types::lemma_sums_prefix(tv, i as int + 1);
            assert(tv.take(i as int + 1).drop_last() =~= tv.take(i as int));
            assert(tv.take(i as int + 1).last() == tv[i as int]);
        }
        let st = tasks[i].status;
        if st == TaskStatus::RewardPrepared || st == TaskStatus::TicketIssued {
            total = total + tasks[i].reward_amount;
        }
        i = i + 1;
    }
    proof {
        assert(tv.take(n as int) =~= tv);
    }
    total
}

/// Rebuilds a wallet's tracked state from a plain task list, recomputing the
/// cached unclaimed total: the normalization applied when a stored record of
/// an older shape is decoded by the host.
pub fn rebuild_user_state(wallet: String, tasks: Vec<UserTaskDetail>) -> (r: UserTaskState)
    requires
        unclaimed_sum(tasks@.map_values(|t: UserTaskDetail| t@)) <= u64::MAX,
    ensures
        r@.wallet == wallet@,
        r@.tasks == tasks@.map_values(|t: UserTaskDetail| t@),
        r@.total_unclaimed as int == unclaimed_sum(tasks@.map_values(|t: UserTaskDetail| t@)),
{
    let total = compute_total_unclaimed(&tasks);
    UserTaskState { wallet, tasks, total_unclaimed: total }
}

/// Sums the pinned rewards of the tasks currently in status Completed: the
/// amount a wallet would claim if a snapshot were built now.
fn compute_completed_total(tasks: &Vec<UserTaskDetail>) -> (r: u64)
    requires
        completed_sum(tasks@.map_values(|t: UserTaskDetail| t@)) <= u64::MAX,
    ensures
        r as int == completed_sum(tasks@.map_values(|t: UserTaskDetail| t@)),
{
    let ghost tv: Seq<UserTaskDetailView> = tasks@.map_values(|t: UserTaskDetail| t@);
    let n = tasks.len();
    let mut total: u64 = 0;
    let mut i: usize = 0;
    proof {
        assert(tv.take(0) =~= Seq::<UserTaskDetailView>::empty());
    }
    while i < n
        invariant
            i <= n,
            n == tv.len(),
            tv == tasks@.map_values(|t: UserTaskDetail| t@),
            completed_sum(tv) <= u64::MAX,
            total as int == completed_sum(tv.take(i as int)),
        decreases n - i,
    {
        proof {
            crate::types::lemma_sums_prefix(tv, i as int + 1);
            assert(tv.take(i as int + 1).drop_last() =~= tv.take(i as int));
            assert(tv.take(i as int + 1).last() == tv[i as int]);
        }
        if tasks[i].status == TaskStatus::Completed {
            total = total + tasks[i].reward_amount;
        }
        i = i + 1;
    }
    proof {
        assert(tv.take(n as int) =~= tv);
    }
    total
}

/// Builds the retagged copy of a task list: tasks in the source status move
/// to the target status, every other task is copied untouched.
fn retag_tasks(tasks: &Vec<UserTaskDetail>, from: TaskStatus, to: TaskStatus) -> (r: Vec<
    UserTaskDetail,
>)
    ensures
        r@.len() == tasks@.len(),
        forall|i: int|
            0 <= i < tasks@.len() ==> (#[trigger] r@[i])@ == retag(tasks@[i]@, from, to),
{
    let n = tasks.len();
    let mut r: Vec<UserTaskDetail> = Vec::new();
    let mut i: usize = 0;
    while i < n
        invariant
            i <= n,
            n == tasks@.len(),
            r@.len() == i,
            forall|j: int|
                0 <= j < i ==> (#[trigger] r@[j])@ == retag(tasks@[j]@, from, to),
        decreases n - i,
    {
        let t = &tasks[i];
        if t.status == from {
            r.push(
                UserTaskDetail {
                    taskid: t.taskid.clone(),
                    status: to,
                    completed_at: t.completed_at,
                    reward_amount: t.reward_amount,
                    evidence: crate::types::clone_opt_string(&t.evidence),
                },
            );
        } else {
            r.push(t.clone());
        }
        i = i + 1;
    }
    r
}

/// Position of the given task within a wallet's task list, where one exists.
fn find_detail_index(tasks: &Vec<UserTaskDetail>, taskid: &str) -> (r: Option<usize>)
    ensures
        (match r {
            Some(i) => i < tasks@.len() && tasks@[i as int]@.taskid == taskid@,
            None => !has_utask(tasks@.map_values(|t: UserTaskDetail| t@), taskid@),
        }),
{
    let ghost tv: Seq<UserTaskDetailView> = tasks@.map_values(|t: UserTaskDetail| t@);
    let n = tasks.len();
    let mut i: usize = 0;
    while i < n
        invariant
            i <= n,
            n == tv.len(),
            tv == tasks@.map_values(|t: UserTaskDetail| t@),
            forall|j: int| 0 <= j < i ==> (#[trigger] tv[j]).taskid != taskid@,
        decreases n - i,
    {
        if str_eq(tasks[i].taskid.as_str(), taskid) {
            return Some(i);
        }
        i = i + 1;
    }
    None
}

impl RewardEngine {
    /// Materializes a fresh wallet state from the current registry.
    #[verifier::loop_isolation(false)]
    fn materialize_user(&mut self, wallet: &str) -> (r: usize)
        requires
            old(self).wf(),
            wallet_is_valid(wallet@),
            !has_user(old(self).users_v(), wallet@),
        ensures
            final(self).wf(),
            RewardEngine::same_but_users(*old(self), *final(self)),
            final(self).users_v() == old(self).users_v().push(
                fresh_user(wallet@, old(self).contract_v()),
            ),
            r == old(self).users_v().len(),
            r < final(self).users_v().len(),
    {
        let ghost cv = self.contract_v();
        let n = self.contract.len();
        let mut tasks: Vec<UserTaskDetail> = Vec::new();
        let mut i: usize = 0;
        while i < n
            invariant
                i <= n,
                n == cv.len(),
                tasks@.len() == i,
                forall|j: int| 0 <= j < i ==> (#[trigger] tasks@[j])@ == fresh_tasks(cv)[j],
            decreases n - i,
        {
            let item = &self.contract[i];
            tasks.push(
                UserTaskDetail {
                    taskid: item.taskid.clone(),
                    status: TaskStatus::NotStarted,
                    completed_at: 0,
                    reward_amount: 0,
                    evidence: None,
                },
            );
            i = i + 1;
        }
        let wallet_string: String = wallet.to_owned();
        let u = UserTaskState { wallet: wallet_string, tasks, total_unclaimed: 0 };
        let idx = self.users.len();
        proof {
            assert(u@.tasks =~= fresh_tasks(cv));
            assert(u@ == fresh_user(wallet@, cv));
            assert(forall|j: int|
                0 <= j < fresh_tasks(cv).len() ==> unclaimed_part(#[trigger] fresh_tasks(cv)[j])
                    == 0);
            lemma_unclaimed_sum_zero(fresh_tasks(cv));
            assert forall|a: int, b: int| 0 <= a < b < fresh_tasks(cv).len() implies (
            #[trigger] fresh_tasks(cv)[a]).taskid != (#[trigger] fresh_tasks(cv)[b]).taskid by {
                assert(fresh_tasks(cv)[a].taskid == cv[a].taskid);
                assert(fresh_tasks(cv)[b].taskid == cv[b].taskid);
                assert(cv[a].taskid != cv[b].taskid);
            }
            assert(user_wf(u@));
            lemma_users_push(self.users_v(), u@);
        }
        self.users.push(u);
        proof {
            assert(self.users_v() =~= old(self).users_v().push(fresh_user(wallet@, cv)));
            assert forall|j: int| 0 <= j < self.users_v().len() implies user_wf(
                #[trigger] self.users_v()[j],
            ) by {
                if j < old(self).users_v().len() {
                    assert(user_wf(old(self).users_v()[j]));
                }
            }
            lemma_wf_outside_snapshots(*old(self), *self);
        }
        idx
    }

    /// Returns the wallet's tracked state, materializing one from the current
    /// registry (every task NotStarted, no reward pinned) on first access.
    /// Rejects a malformed wallet with InvalidAddress and no side effect.
    pub fn get_or_init_user_tasks(&mut self, wallet: String) -> (r: Result<
        UserTaskState,
        RewardError,
    >)
        requires
            old(self).wf(),
        ensures
            final(self).wf(),
            RewardEngine::same_but_users(*old(self), *final(self)),
            engine_steps_ok(old(self).users_v(), final(self).users_v()),
            (match r {
                Ok(u) => {
                    &&& wallet_is_valid(wallet@)
                    &&& final(self).users_v() == users_after_touch(
                        old(self).users_v(),
                        wallet@,
                        old(self).contract_v(),
                    )
                    &&& has_user(final(self).users_v(), wallet@)
                    &&& u@ == user_of(final(self).users_v(), wallet@)
                },
                Err(e) => {
                    &&& e == RewardError::InvalidAddress
                    &&& !wallet_is_valid(wallet@)
                    &&& final(self).users_v() == old(self).users_v()
                },
            }),
    {
        match decode_wallet_base58(wallet.as_str()) {
            Ok(_) => {},
            Err(e) => {
                return Err(e);
            },
        }
        match self.find_user_index(wallet.as_str()) {
            Some(i) => {
                let u = self.users[i].clone();
                proof {
                    assert(has_user(self.users_v(), wallet@));
                    let c = user_index(self.users_v(), wallet@);
                    assert(0 <= c < self.users_v().len() && self.users_v()[c].wallet == wallet@);
                    if c != i as int {
                        let a = self.users_v()[c];
                        let b = self.users_v()[i as int];
                        assert(a.wallet != b.wallet);
                    }
                }
                Ok(u)
            },
            None => {
                let i = self.materialize_user(wallet.as_str());
                proof {
                    lemma_users_push(old(self).users_v(), fresh_user(wallet@, old(self).contract_v()));
                }
                let u = self.users[i].clone();
                Ok(u)
            },
        }
    }

    /// Upserts the given registry entries by task identifier, in order.
    /// Admin-only: fails PermissionDenied, with no side effect, for any other
    /// caller.
    #[verifier::loop_isolation(false)]
    #[verifier::rlimit(50)]
    pub fn init_task_contract(&mut self, tasks: Vec<TaskContractItem>, is_admin: bool) -> (r:
        Result<(), RewardError>)
        requires
            old(self).wf(),
        ensures
            final(self).wf(),
            final(self).users_v() == old(self).users_v(),
            engine_steps_ok(old(self).users_v(), final(self).users_v()),
            final(self).payments_v() == old(self).payments_v(),
            final(self).metas_v() == old(self).metas_v(),
            final(self).layers_v() == old(self).layers_v(),
            final(self).offsets_v() == old(self).offsets_v(),
            final(self).windex_v() == old(self).windex_v(),
            (match r {
                Ok(()) => is_admin && final(self).contract_v() == upsert_tasks(
                    old(self).contract_v(),
                    tasks@.map_values(|t: TaskContractItem| t@),
                ),
                Err(e) => e == RewardError::PermissionDenied && !is_admin
                    && final(self).contract_v() == old(self).contract_v(),
            }),
    {
        if !is_admin {
            return Err(RewardError::PermissionDenied);
        }
        let ghost tsv = tasks@.map_values(|t: TaskContractItem| t@);
        let n = tasks.len();
        let mut i: usize = 0;
        proof {
            assert(tsv.skip(0) =~= tsv);
        }
        while i < n
            invariant
                i <= n,
                n == tsv.len(),
                self.wf(),
                self.users_v() == old(self).users_v(),
                self.payments_v() == old(self).payments_v(),
                self.metas_v() == old(self).metas_v(),
                self.layers_v() == old(self).layers_v(),
                self.offsets_v() == old(self).offsets_v(),
                self.windex_v() == old(self).windex_v(),
                upsert_tasks(old(self).contract_v(), tsv) == upsert_tasks(
                    self.contract_v(),
                    tsv.skip(i as int),
                ),
            decreases n - i,
        {
            let ghost cv = self.contract_v();
            let item = tasks[i].clone();
            proof {
                assert(tsv.skip(i as int)[0] == tsv[i as int]);
                assert(tsv.skip(i as int).drop_first() =~= tsv.skip(i as int + 1));
            }
            match self.find_task_index(item.taskid.as_str()) {
                Some(k) => {
                    proof {
                        assert(has_task(cv, item@.taskid));
                        let c = task_index(cv, item@.taskid);
                        assert(0 <= c < cv.len() && cv[c].taskid == item@.taskid);
                        if c != k as int {
                            let a = cv[c];
                            let b = cv[k as int];
                            assert(a.taskid != b.taskid);
                        }
                        lemma_tasks_update(cv, k as int, item@);
                    }
                    self.contract.remove(k);
                    self.contract.insert(k, item);
                    proof {
                        assert(self.contract_v() =~= cv.update(k as int, tsv[i as int]));
                        assert forall|a2: int, b2: int|
                            0 <= a2 < b2 < self.contract_v().len() implies crate::order::chars_lt(
                            (#[trigger] self.contract_v()[a2]).taskid,
                            (#[trigger] self.contract_v()[b2]).taskid,
                        ) by {
                            assert(self.contract_v()[a2].taskid == cv[a2].taskid);
                            assert(self.contract_v()[b2].taskid == cv[b2].taskid);
                        }
                        lemma_wf_outside_snapshots(*old(self), *self);
                    }
                },
                None => {
                    // Slot the fresh entry into its key-ordered place.
                    let m2 = self.contract.len();
                    let mut pos: usize = 0;
                    while pos < m2
                        invariant
                            pos <= m2,
                            m2 == cv.len(),
                            cv == self.contract_v(),
                            forall|j: int|
                                0 <= j < pos ==> !crate::order::chars_lt(
                                    item@.taskid,
                                    (#[trigger] cv[j]).taskid,
                                ),
                        decreases m2 - pos,
                    {
                        if str_lt(item.taskid.as_str(), self.contract[pos].taskid.as_str()) {
                            break ;
                        }
                        pos = pos + 1;
                    }
                    proof {
                        lemma_sorted_task_insert_at(cv, item@, pos as int);
                        lemma_tasks_insert_sorted(cv, item@, pos as int);
                    }
                    self.contract.insert(pos, item);
                    proof {
                        assert(self.contract_v() =~= cv.insert(pos as int, tsv[i as int]));
                        lemma_wf_outside_snapshots(*old(self), *self);
                    }
                },
            }
            i = i + 1;
        }
        proof {
            assert(tsv.skip(n as int) =~= Seq::<TaskContractItemView>::empty());
        }
        Ok(())
    }
}


/// Whether some registry entry carries the given payment tag.
pub open spec fn has_paytag(c: Seq<TaskContractItemView>, tag: Seq<char>) -> bool {
    exists|i: int| 0 <= i < c.len() && (#[trigger] c[i]).payfor == Some(tag)
}

/// Position of the first registry entry carrying the given payment tag.
pub open spec fn first_paytag_index(c: Seq<TaskContractItemView>, tag: Seq<char>) -> int
    decreases c.len(),
{
    if c.len() == 0 {
        0
    } else if c[0].payfor == Some(tag) {
        0
    } else {
        1 + first_paytag_index(c.drop_first(), tag)
    }
}

/// An entry whose prefix holds no match is the first match.
pub proof fn lemma_first_paytag(c: Seq<TaskContractItemView>, tag: Seq<char>, k: int)
    requires
        0 <= k < c.len(),
        c[k].payfor == Some(tag),
        forall|j: int| 0 <= j < k ==> (#[trigger] c[j]).payfor != Some(tag),
    ensures
        first_paytag_index(c, tag) == k,
        has_paytag(c, tag),
    decreases k,
{
    if k > 0 {
        assert(forall|j: int|
            0 <= j < k - 1 ==> (#[trigger] c.drop_first()[j]).payfor != Some(tag));
        assert(c.drop_first()[k - 1] == c[k]);
        lemma_first_paytag(c.drop_first(), tag, k - 1);
    }
}

/// Effect of a tag-matching payment on the wallet states: the paying wallet
/// (materialized first where untracked) has the first tag-matching registry
/// task auto-completed, and every other wallet is untouched.
pub open spec fn paid_users_ok(
    old_users: Seq<UserTaskStateView>,
    cv: Seq<TaskContractItemView>,
    new_users: Seq<UserTaskStateView>,
    w: Seq<char>,
    tag: Seq<char>,
    ts: u64,
) -> bool {
    let base = users_after_touch(old_users, w, cv);
    let k = first_paytag_index(cv, tag);
    &&& has_user(new_users, w)
    &&& new_users.len() == base.len()
    &&& user_of(new_users, w).tasks == pay_result(
        user_of(base, w).tasks,
        cv[k].taskid,
        cv[k].reward,
        ts,
    )
    &&& (forall|w2: Seq<char>|
        w2 != w ==> (#[trigger] has_user(new_users, w2) == has_user(base, w2) && (has_user(
            base,
            w2,
        ) ==> user_of(new_users, w2) == user_of(base, w2))))
}

/// A task list after a payment auto-completes the given task: where the task
/// is present and not yet past InProgress, it becomes Completed with the
/// reward pinned and the timestamp stamped; otherwise nothing changes.
pub open spec fn pay_result(
    ts_: Seq<UserTaskDetailView>,
    tid: Seq<char>,
    reward: u64,
    at: u64,
) -> Seq<UserTaskDetailView> {
    if has_utask(ts_, tid) && (utask_of(ts_, tid).status == TaskStatus::NotStarted || utask_of(
        ts_,
        tid,
    ).status == TaskStatus::InProgress) {
        ts_.update(
            utask_index(ts_, tid),
            completed_detail(tid, reward, utask_of(ts_, tid).evidence, at),
        )
    } else {
        ts_
    }
}

impl RewardEngine {
    /// Completes the given task for the given wallet: pins the reward from
    /// the registry at this instant, records the evidence and stamps the
    /// completion timestamp. Fails InvalidAddress on a malformed wallet,
    /// NotFound where the registry (or the wallet's tracked list) lacks the
    /// task, and InvalidState where the task is already past InProgress; no
    /// failure leaves a side effect.
    #[verifier::loop_isolation(false)]
    #[verifier::rlimit(100)]
    pub fn complete_task(
        &mut self,
        wallet: String,
        taskid: String,
        evidence: Option<String>,
        ts: u64,
    ) -> (r: Result<(), RewardError>)
        requires
            old(self).wf(),
        ensures
            final(self).wf(),
            RewardEngine::same_but_users(*old(self), *final(self)),
            engine_steps_ok(old(self).users_v(), final(self).users_v()),
            (match r {
                Ok(()) => ({
                    let base = users_after_touch(
                        old(self).users_v(),
                        wallet@,
                        old(self).contract_v(),
                    );
                    let bu = user_of(base, wallet@);
                    &&& wallet_is_valid(wallet@)
                    &&& has_task(old(self).contract_v(), taskid@)
                    &&& has_utask(bu.tasks, taskid@)
                    &&& (utask_of(bu.tasks, taskid@).status == TaskStatus::NotStarted || utask_of(
                        bu.tasks,
                        taskid@,
                    ).status == TaskStatus::InProgress)
                    &&& has_user(final(self).users_v(), wallet@)
                    &&& user_of(final(self).users_v(), wallet@).tasks == bu.tasks.update(
                        utask_index(bu.tasks, taskid@),
                        completed_detail(
                            taskid@,
                            task_of(old(self).contract_v(), taskid@).reward,
                            opt_view(evidence),
                            ts,
                        ),
                    )
                    &&& user_of(final(self).users_v(), wallet@).total_unclaimed
                        == bu.total_unclaimed
                    &&& final(self).users_v().len() == base.len()
                    &&& forall|w2: Seq<char>|
                        w2 != wallet@ ==> (#[trigger] has_user(final(self).users_v(), w2)
                            == has_user(base, w2) && (has_user(base, w2) ==> user_of(
                            final(self).users_v(),
                            w2,
                        ) == user_of(base, w2)))
                }),
                Err(e) => {
                    &&& final(self).users_v() == old(self).users_v()
                    &&& (e == RewardError::InvalidAddress || e == RewardError::NotFound || e
                        == RewardError::InvalidState)
                    &&& (e == RewardError::InvalidAddress <==> !wallet_is_valid(wallet@))
                    &&& (e == RewardError::NotFound ==> wallet_is_valid(wallet@) && (!has_task(
                        old(self).contract_v(),
                        taskid@,
                    ) || (has_user(old(self).users_v(), wallet@) && !has_utask(
                        user_of(old(self).users_v(), wallet@).tasks,
                        taskid@,
                    ))))
                    &&& (e == RewardError::InvalidState ==> wallet_is_valid(wallet@) && has_task(
                        old(self).contract_v(),
                        taskid@,
                    ) && has_user(old(self).users_v(), wallet@) && has_utask(
                        user_of(old(self).users_v(), wallet@).tasks,
                        taskid@,
                    ) && utask_of(user_of(old(self).users_v(), wallet@).tasks, taskid@).status
                        != TaskStatus::NotStarted && utask_of(
                        user_of(old(self).users_v(), wallet@).tasks,
                        taskid@,
                    ).status != TaskStatus::InProgress)
                },
            }),
    {
        match decode_wallet_base58(wallet.as_str()) {
            Ok(_) => {},
            Err(e) => {
                return Err(e);
            },
        }
        let reward = match self.find_task_index(taskid.as_str()) {
            Some(ci) => {
                proof {
                    assert(has_task(self.contract_v(), taskid@));
                    let c = task_index(self.contract_v(), taskid@);
                    assert(0 <= c < self.contract_v().len() && self.contract_v()[c].taskid
                        == taskid@);
                    if c != ci as int {
                        let a = self.contract_v()[c];
                        let b = self.contract_v()[ci as int];
                        assert(a.taskid != b.taskid);
                    }
                }
                self.contract[ci].reward
            },
            None => {
                return Err(RewardError::NotFound);
            },
        };
        let ghost pre_users = self.users_v();
        let had_user = match self.find_user_index(wallet.as_str()) {
            Some(_) => true,
            None => false,
        };
        let ui = match self.find_user_index(wallet.as_str()) {
            Some(i) => i,
            None => self.materialize_user(wallet.as_str()),
        };
        let ghost base = self.users_v();
        let ghost bu = user_of(base, wallet@);
        proof {
            assert(base == users_after_touch(pre_users, wallet@, old(self).contract_v()));
            assert(has_user(base, wallet@)) by {
                if !had_user {
                    lemma_users_push(pre_users, fresh_user(wallet@, old(self).contract_v()));
                }
            }
            let c = user_index(base, wallet@);
            assert(0 <= c < base.len() && base[c].wallet == wallet@);
            if c != ui as int {
                let a = base[c];
                let b = base[ui as int];
                assert(a.wallet != b.wallet);
            }
            assert(bu == base[ui as int]);
            assert(user_wf(bu));
        }
        let ti = match find_detail_index(&self.users[ui].tasks, taskid.as_str()) {
            Some(t) => t,
            None => {
                proof {
                    if !had_user {
                        assert(bu.tasks == fresh_tasks(old(self).contract_v()));
                        let k = task_index(old(self).contract_v(), taskid@);
                        assert(fresh_tasks(old(self).contract_v())[k].taskid == taskid@);
                        assert(has_utask(bu.tasks, taskid@));
                        assert(false);
                    }
                }
                return Err(RewardError::NotFound);
            },
        };
        proof {
            assert(has_utask(bu.tasks, taskid@));
            let c = utask_index(bu.tasks, taskid@);
            assert(0 <= c < bu.tasks.len() && bu.tasks[c].taskid == taskid@);
            if c != ti as int {
                let a = bu.tasks[c];
                let b = bu.tasks[ti as int];
                assert(a.taskid != b.taskid);
            }
            assert(utask_of(bu.tasks, taskid@) == bu.tasks[ti as int]);
        }
        let st = self.users[ui].tasks[ti].status;
        if !(st == TaskStatus::NotStarted || st == TaskStatus::InProgress) {
            proof {
                if !had_user {
                    assert(bu.tasks[ti as int] == fresh_tasks(old(self).contract_v())[ti as int]);
                    assert(false);
                }
            }
            return Err(RewardError::InvalidState);
        }
        let mut nu = self.users[ui].clone();
        nu.tasks.remove(ti);
        nu.tasks.insert(
            ti,
            UserTaskDetail {
                taskid,
                status: TaskStatus::Completed,
                completed_at: ts,
                reward_amount: reward,
                evidence,
            },
        );
        let ghost nts = nu.tasks@.map_values(|t: UserTaskDetail| t@);
        proof {
            assert(nts =~= bu.tasks.update(
                ti as int,
                completed_detail(taskid@, reward, opt_view(evidence), ts),
            ));
            assert forall|j: int| 0 <= j < nts.len() implies unclaimed_part(#[trigger] nts[j])
                == unclaimed_part(bu.tasks[j]) by {
                if j != ti as int {
                    assert(nts[j] == bu.tasks[j]);
                }
            }
            crate::types::lemma_unclaimed_sum_pointwise(bu.tasks, nts);
        }
        let total = compute_total_unclaimed(&nu.tasks);
        nu.total_unclaimed = total;
        proof {
            assert(nu@.tasks == nts);
            assert(nu@.wallet == wallet@);
            assert forall|a: int, b: int| 0 <= a < b < nts.len() implies (
            #[trigger] nts[a]).taskid != (#[trigger] nts[b]).taskid by {
                assert(nts[a].taskid == bu.tasks[a].taskid);
                assert(nts[b].taskid == bu.tasks[b].taskid);
                assert(bu.tasks[a].taskid != bu.tasks[b].taskid);
            }
            assert(user_wf(nu@));
            lemma_users_update(base, ui as int, nu@);
        }
        self.users.remove(ui);
        self.users.insert(ui, nu);
        proof {
            assert(self.users_v() =~= base.update(ui as int, nu@));
            assert forall|j: int| 0 <= j < self.users_v().len() implies user_wf(
                #[trigger] self.users_v()[j],
            ) by {
                if j != ui as int {
                    assert(self.users_v()[j] == base[j]);
                    assert(user_wf(base[j]));
                }
            }
            lemma_wf_outside_snapshots(*old(self), *self);
            assert(user_of(self.users_v(), wallet@) == nu@);
            assert forall|w2: Seq<char>| #[trigger] has_user(old(self).users_v(), w2) implies
                has_user(self.users_v(), w2) && user_steps_ok(
                user_of(old(self).users_v(), w2),
                user_of(self.users_v(), w2),
            ) by {
                if !had_user {
                    lemma_users_push(pre_users, fresh_user(wallet@, old(self).contract_v()));
                }
                if w2 == wallet@ {
                    assert(had_user);
                    assert(user_of(old(self).users_v(), w2) == bu);
                    assert(user_of(self.users_v(), w2) == nu@);
                    assert forall|j: int| 0 <= j < bu.tasks.len() implies status_step_ok(
                        (#[trigger] bu.tasks[j]).status,
                        nts[j].status,
                    ) by {
                        if j != ti as int {
                            assert(nts[j] == bu.tasks[j]);
                        }
                    }
                } else {
                    if !had_user {
                        let fu = fresh_user(wallet@, old(self).contract_v());
                        assert(base == pre_users.push(fu));
                        assert(has_user(pre_users.push(fu), w2) == has_user(pre_users, w2));
                    }
                    assert(user_of(old(self).users_v(), w2) == user_of(base, w2));
                    assert(has_user(base.update(ui as int, nu@), w2) == has_user(base, w2));
                    assert(self.users_v() == base.update(ui as int, nu@));
                    assert(user_of(self.users_v(), w2) == user_of(base, w2));
                }
            }
            assert forall|w2: Seq<char>| w2 != wallet@ implies (#[trigger] has_user(
                self.users_v(),
                w2,
            ) == has_user(base, w2) && (has_user(base, w2) ==> user_of(self.users_v(), w2)
                == user_of(base, w2))) by {
                assert(has_user(base.update(ui as int, nu@), w2) == has_user(base, w2));
                assert(self.users_v() == base.update(ui as int, nu@));
            }
        }
        Ok(())
    }

    /// Reconciles a reported claim outcome for a wallet: on Success every
    /// TicketIssued task becomes Claimed; on Failure every TicketIssued task
    /// reverts to RewardPrepared, permitting re-issuance. Fails InvalidAddress
    /// on a malformed wallet and NotFound where the wallet has no tracked
    /// state; no failure leaves a side effect.
    #[verifier::loop_isolation(false)]
    #[verifier::rlimit(100)]
    pub fn mark_claim_result(
        &mut self,
        wallet: String,
        epoch: u64,
        status: crate::types::ClaimResultStatus,
        tx_sig: Option<String>,
    ) -> (r: Result<(), RewardError>)
        requires
            old(self).wf(),
        ensures
            final(self).wf(),
            RewardEngine::same_but_users(*old(self), *final(self)),
            engine_steps_ok(old(self).users_v(), final(self).users_v()),
            (match r {
                Ok(()) => ({
                    let target = if status == crate::types::ClaimResultStatus::Success {
                        TaskStatus::Claimed
                    } else {
                        TaskStatus::RewardPrepared
                    };
                    &&& wallet_is_valid(wallet@)
                    &&& has_user(old(self).users_v(), wallet@)
                    &&& final(self).users_v().len() == old(self).users_v().len()
                    &&& has_user(final(self).users_v(), wallet@)
                    &&& user_of(final(self).users_v(), wallet@).tasks == retag_all(
                        user_of(old(self).users_v(), wallet@).tasks,
                        TaskStatus::TicketIssued,
                        target,
                    )
                    &&& forall|w2: Seq<char>|
                        w2 != wallet@ ==> (#[trigger] has_user(final(self).users_v(), w2)
                            == has_user(old(self).users_v(), w2) && (has_user(
                            old(self).users_v(),
                            w2,
                        ) ==> user_of(final(self).users_v(), w2) == user_of(
                            old(self).users_v(),
                            w2,
                        )))
                }),
                Err(e) => {
                    &&& final(self).users_v() == old(self).users_v()
                    &&& (e == RewardError::InvalidAddress || e == RewardError::NotFound)
                    &&& (e == RewardError::InvalidAddress <==> !wallet_is_valid(wallet@))
                    &&& (e == RewardError::NotFound <==> wallet_is_valid(wallet@) && !has_user(
                        old(self).users_v(),
                        wallet@,
                    ))
                },
            }),
    {
        match decode_wallet_base58(wallet.as_str()) {
            Ok(_) => {},
            Err(e) => {
                return Err(e);
            },
        }
        let ui = match self.find_user_index(wallet.as_str()) {
            Some(i) => i,
            None => {
                return Err(RewardError::NotFound);
            },
        };
        let ghost base = self.users_v();
        let ghost bu = base[ui as int];
        proof {
            assert(has_user(base, wallet@));
            let c = user_index(base, wallet@);
            assert(0 <= c < base.len() && base[c].wallet == wallet@);
            if c != ui as int {
                let a = base[c];
                let b = base[ui as int];
                assert(a.wallet != b.wallet);
            }
            assert(user_of(base, wallet@) == bu);
            assert(user_wf(bu));
        }
        let target = if status == crate::types::ClaimResultStatus::Success {
            TaskStatus::Claimed
        } else {
            TaskStatus::RewardPrepared
        };
        let nt = retag_tasks(&self.users[ui].tasks, TaskStatus::TicketIssued, target);
        let ghost nts = nt@.map_values(|t: UserTaskDetail| t@);
        proof {
            assert(nts =~= retag_all(bu.tasks, TaskStatus::TicketIssued, target));
            assert forall|j: int| 0 <= j < nts.len() implies unclaimed_part(#[trigger] nts[j])
                <= unclaimed_part(bu.tasks[j]) by {
                assert(nts[j] == retag(bu.tasks[j], TaskStatus::TicketIssued, target));
            }
            crate::types::lemma_unclaimed_sum_pointwise(bu.tasks, nts);
        }
        let total = compute_total_unclaimed(&nt);
        let nu = UserTaskState {
            wallet: self.users[ui].wallet.clone(),
            tasks: nt,
            total_unclaimed: total,
        };
        proof {
            assert(nu@.tasks == nts);
            assert(nu@.wallet == wallet@);
            assert forall|a: int, b: int| 0 <= a < b < nts.len() implies (
            #[trigger] nts[a]).taskid != (#[trigger] nts[b]).taskid by {
                assert(nts[a].taskid == bu.tasks[a].taskid);
                assert(nts[b].taskid == bu.tasks[b].taskid);
                assert(bu.tasks[a].taskid != bu.tasks[b].taskid);
            }
            assert(user_wf(nu@));
            lemma_users_update(base, ui as int, nu@);
        }
        self.users.remove(ui);
        self.users.insert(ui, nu);
        proof {
            assert(self.users_v() =~= base.update(ui as int, nu@));
            assert forall|j: int| 0 <= j < self.users_v().len() implies user_wf(
                #[trigger] self.users_v()[j],
            ) by {
                if j != ui as int {
                    assert(self.users_v()[j] == base[j]);
                    assert(user_wf(base[j]));
                }
            }
            lemma_wf_outside_snapshots(*old(self), *self);
            assert(user_of(self.users_v(), wallet@) == nu@);
            assert forall|w2: Seq<char>| #[trigger] has_user(old(self).users_v(), w2) implies
                has_user(self.users_v(), w2) && user_steps_ok(
                user_of(old(self).users_v(), w2),
                user_of(self.users_v(), w2),
            ) by {
                if w2 == wallet@ {
                    assert(user_of(old(self).users_v(), w2) == bu);
                    assert(user_of(self.users_v(), w2) == nu@);
                    assert forall|j: int| 0 <= j < bu.tasks.len() implies status_step_ok(
                        (#[trigger] bu.tasks[j]).status,
                        nts[j].status,
                    ) by {
                        assert(nts[j] == retag(bu.tasks[j], TaskStatus::TicketIssued, target));
                    }
                } else {
                    assert(has_user(base.update(ui as int, nu@), w2) == has_user(base, w2));
                    assert(self.users_v() == base.update(ui as int, nu@));
                    assert(user_of(self.users_v(), w2) == user_of(base, w2));
                }
            }
            assert forall|w2: Seq<char>| w2 != wallet@ implies (#[trigger] has_user(
                self.users_v(),
                w2,
            ) == has_user(base, w2) && (has_user(base, w2) ==> user_of(self.users_v(), w2)
                == user_of(base, w2))) by {
                assert(has_user(base.update(ui as int, nu@), w2) == has_user(base, w2));
                assert(self.users_v() == base.update(ui as int, nu@));
            }
        }
        Ok(())
    }
}


impl RewardEngine {
    /// Records a payment in the append-only ledger. Where the payment carries
    /// a tag matching some registry task's tag, the first such task is
    /// auto-completed for the wallet (from NotStarted or InProgress only, a
    /// no-op otherwise), pinning the reward from the registry at this instant.
    /// Fails InvalidAddress, with no side effect, on a malformed wallet.
    #[verifier::loop_isolation(false)]
    #[verifier::rlimit(100)]
    pub fn record_payment(
        &mut self,
        wallet: String,
        amount_paid: u64,
        tx_ref: String,
        ts: u64,
        payfor: Option<String>,
    ) -> (r: Result<(), RewardError>)
        requires
            old(self).wf(),
        ensures
            final(self).wf(),
            engine_steps_ok(old(self).users_v(), final(self).users_v()),
            final(self).contract_v() == old(self).contract_v(),
            final(self).metas_v() == old(self).metas_v(),
            final(self).layers_v() == old(self).layers_v(),
            final(self).offsets_v() == old(self).offsets_v(),
            final(self).windex_v() == old(self).windex_v(),
            (match r {
                Ok(()) => {
                    &&& wallet_is_valid(wallet@)
                    &&& final(self).payments_v() == old(self).payments_v().push(
                        PaymentRecordView {
                            wallet: wallet@,
                            amount_paid,
                            tx_ref: tx_ref@,
                            ts,
                            payfor: opt_view(payfor),
                        },
                    )
                    &&& (match opt_view(payfor) {
                        None => final(self).users_v() == old(self).users_v(),
                        Some(tag) => {
                            if !has_paytag(old(self).contract_v(), tag) {
                                final(self).users_v() == old(self).users_v()
                            } else {
                                paid_users_ok(
                                    old(self).users_v(),
                                    old(self).contract_v(),
                                    final(self).users_v(),
                                    wallet@,
                                    tag,
                                    ts,
                                )
                            }
                        },
                    })
                },
                Err(e) => {
                    &&& e == RewardError::InvalidAddress
                    &&& !wallet_is_valid(wallet@)
                    &&& final(self).users_v() == old(self).users_v()
                    &&& final(self).payments_v() == old(self).payments_v()
                },
            }),
    {
        match decode_wallet_base58(wallet.as_str()) {
            Ok(_) => {},
            Err(e) => {
                return Err(e);
            },
        }
        let record = PaymentRecord {
            wallet: wallet.clone(),
            amount_paid,
            tx_ref,
            ts,
            payfor: crate::types::clone_opt_string(&payfor),
        };
        self.payments.push(record);
        proof {
            assert(self.payments_v() =~= old(self).payments_v().push(
                PaymentRecordView {
                    wallet: wallet@,
                    amount_paid,
                    tx_ref: tx_ref@,
                    ts,
                    payfor: opt_view(payfor),
                },
            ));
            lemma_wf_outside_snapshots(*old(self), *self);
        }
        let tag = match payfor {
            Some(t) => t,
            None => {
                return Ok(());
            },
        };
        let ghost cv = self.contract_v();
        let n = self.contract.len();
        let mut found: Option<usize> = None;
        let mut i: usize = 0;
        while i < n
            invariant
                i <= n,
                n == cv.len(),
                cv == self.contract_v(),
                found is None,
                forall|j: int| 0 <= j < i ==> (#[trigger] cv[j]).payfor != Some(tag@),
            decreases n - i,
        {
            let hit = match &self.contract[i].payfor {
                Some(pf) => str_eq(pf.as_str(), tag.as_str()),
                None => false,
            };
            if hit {
                found = Some(i);
                break ;
            }
            i = i + 1;
        }
        let ci = match found {
            Some(c) => c,
            None => {
                proof {
                    assert(!has_paytag(cv, tag@));
                }
                return Ok(());
            },
        };
        proof {
            lemma_first_paytag(cv, tag@, ci as int);
        }
        let taskid = self.contract[ci].taskid.clone();
        let reward = self.contract[ci].reward;
        let ghost pre_users = self.users_v();
        let had_user = match self.find_user_index(wallet.as_str()) {
            Some(_) => true,
            None => false,
        };
        let ui = match self.find_user_index(wallet.as_str()) {
            Some(i2) => i2,
            None => self.materialize_user(wallet.as_str()),
        };
        let ghost base = self.users_v();
        let ghost bu = user_of(base, wallet@);
        proof {
            assert(base == users_after_touch(pre_users, wallet@, cv));
            assert(has_user(base, wallet@)) by {
                if !had_user {
                    lemma_users_push(pre_users, fresh_user(wallet@, cv));
                }
            }
            let c = user_index(base, wallet@);
            assert(0 <= c < base.len() && base[c].wallet == wallet@);
            if c != ui as int {
                let a = base[c];
                let b = base[ui as int];
                assert(a.wallet != b.wallet);
            }
            assert(bu == base[ui as int]);
            assert(user_wf(bu));
        }
        let ti = match find_detail_index(&self.users[ui].tasks, taskid.as_str()) {
            Some(t) => t,
            None => {
                proof {
                    if !had_user {
                        assert(bu.tasks == fresh_tasks(cv));
                        assert(fresh_tasks(cv)[ci as int].taskid == cv[ci as int].taskid);
                        assert(has_utask(bu.tasks, taskid@));
                        assert(false);
                    }
                    assert(pay_result(bu.tasks, taskid@, reward, ts) == bu.tasks);
                    assert(user_of(self.users_v(), wallet@) == bu);
                    assert(paid_users_ok(
                        old(self).users_v(),
                        old(self).contract_v(),
                        self.users_v(),
                        wallet@,
                        tag@,
                        ts,
                    ));
                }
                return Ok(());
            },
        };
        proof {
            assert(has_utask(bu.tasks, taskid@));
            let c = utask_index(bu.tasks, taskid@);
            assert(0 <= c < bu.tasks.len() && bu.tasks[c].taskid == taskid@);
            if c != ti as int {
                let a = bu.tasks[c];
                let b = bu.tasks[ti as int];
                assert(a.taskid != b.taskid);
            }
            assert(utask_of(bu.tasks, taskid@) == bu.tasks[ti as int]);
        }
        let st = self.users[ui].tasks[ti].status;
        if !(st == TaskStatus::NotStarted || st == TaskStatus::InProgress) {
            proof {
                if !had_user {
                    assert(bu.tasks[ti as int] == fresh_tasks(cv)[ti as int]);
                    assert(false);
                }
                assert(pay_result(bu.tasks, taskid@, reward, ts) == bu.tasks);
                assert(user_of(self.users_v(), wallet@) == bu);
                assert(paid_users_ok(
                    old(self).users_v(),
                    old(self).contract_v(),
                    self.users_v(),
                    wallet@,
                    tag@,
                    ts,
                ));
            }
            return Ok(());
        }
        let old_evidence = crate::types::clone_opt_string(&self.users[ui].tasks[ti].evidence);
        let mut nu = self.users[ui].clone();
        nu.tasks.remove(ti);
        nu.tasks.insert(
            ti,
            UserTaskDetail {
                taskid,
                status: TaskStatus::Completed,
                completed_at: ts,
                reward_amount: reward,
                evidence: old_evidence,
            },
        );
        let ghost nts = nu.tasks@.map_values(|t: UserTaskDetail| t@);
        proof {
            assert(nts =~= pay_result(bu.tasks, taskid@, reward, ts));
            assert forall|j: int| 0 <= j < nts.len() implies unclaimed_part(#[trigger] nts[j])
                == unclaimed_part(bu.tasks[j]) by {
                if j != ti as int {
                    assert(nts[j] == bu.tasks[j]);
                }
            }
            crate::types::lemma_unclaimed_sum_pointwise(bu.tasks, nts);
        }
        let total = compute_total_unclaimed(&nu.tasks);
        nu.total_unclaimed = total;
        proof {
            assert(nu@.tasks == nts);
            assert(nu@.wallet == wallet@);
            assert forall|a: int, b: int| 0 <= a < b < nts.len() implies (
            #[trigger] nts[a]).taskid != (#[trigger] nts[b]).taskid by {
                assert(nts[a].taskid == bu.tasks[a].taskid);
                assert(nts[b].taskid == bu.tasks[b].taskid);
                assert(bu.tasks[a].taskid != bu.tasks[b].taskid);
            }
            assert(user_wf(nu@));
            lemma_users_update(base, ui as int, nu@);
        }
        self.users.remove(ui);
        self.users.insert(ui, nu);
        proof {
            assert(self.users_v() =~= base.update(ui as int, nu@));
            assert forall|j: int| 0 <= j < self.users_v().len() implies user_wf(
                #[trigger] self.users_v()[j],
            ) by {
                if j != ui as int {
                    assert(self.users_v()[j] == base[j]);
                    assert(user_wf(base[j]));
                }
            }
            lemma_wf_outside_snapshots(*old(self), *self);
            assert(user_of(self.users_v(), wallet@) == nu@);
            assert forall|w2: Seq<char>| #[trigger] has_user(old(self).users_v(), w2) implies
                has_user(self.users_v(), w2) && user_steps_ok(
                user_of(old(self).users_v(), w2),
                user_of(self.users_v(), w2),
            ) by {
                if !had_user {
                    lemma_users_push(pre_users, fresh_user(wallet@, cv));
                }
                if w2 == wallet@ {
                    assert(had_user);
                    assert(user_of(old(self).users_v(), w2) == bu);
                    assert(user_of(self.users_v(), w2) == nu@);
                    assert forall|j: int| 0 <= j < bu.tasks.len() implies status_step_ok(
                        (#[trigger] bu.tasks[j]).status,
                        nts[j].status,
                    ) by {
                        if j != ti as int {
                            assert(nts[j] == bu.tasks[j]);
                        }
                    }
                } else {
                    if !had_user {
                        let fu = fresh_user(wallet@, cv);
                        assert(base == pre_users.push(fu));
                        assert(has_user(pre_users.push(fu), w2) == has_user(pre_users, w2));
                    }
                    assert(user_of(old(self).users_v(), w2) == user_of(base, w2));
                    assert(has_user(base.update(ui as int, nu@), w2) == has_user(base, w2));
                    assert(self.users_v() == base.update(ui as int, nu@));
                    assert(user_of(self.users_v(), w2) == user_of(base, w2));
                }
            }
            assert forall|w2: Seq<char>| w2 != wallet@ implies (#[trigger] has_user(
                self.users_v(),
                w2,
            ) == has_user(base, w2) && (has_user(base, w2) ==> user_of(self.users_v(), w2)
                == user_of(base, w2))) by {
                assert(has_user(base.update(ui as int, nu@), w2) == has_user(base, w2));
                assert(self.users_v() == base.update(ui as int, nu@));
            }
            assert(pre_users == old(self).users_v());
            assert(cv == old(self).contract_v());
            assert(base == users_after_touch(old(self).users_v(), wallet@, old(self).contract_v()));
            assert(first_paytag_index(old(self).contract_v(), tag@) == ci as int);
            assert(user_of(self.users_v(), wallet@).tasks == pay_result(
                user_of(base, wallet@).tasks,
                cv[ci as int].taskid,
                cv[ci as int].reward,
                ts,
            ));
            assert(paid_users_ok(
                old(self).users_v(),
                old(self).contract_v(),
                self.users_v(),
                wallet@,
                tag@,
                ts,
            ));
        }
        Ok(())
    }
}


use crate::order::chars_lt;
use crate::order::lemma_chars_lt_connected;
use crate::order::lemma_chars_lt_transitive;
use crate::order::str_lt;
use crate::types::ClaimEntry;
use crate::types::ClaimEntryView;

// ===== Claim entries of a snapshot =====
/// Entries strictly sorted by wallet string, ascending.
pub open spec fn entries_sorted(es: Seq<ClaimEntryView>) -> bool {
    forall|i: int, j: int|
        0 <= i < j < es.len() ==> chars_lt((#[trigger] es[i]).wallet, (#[trigger] es[j]).wallet)
}

/// Whether the entry list holds an entry for the given wallet.
pub open spec fn entry_for(es: Seq<ClaimEntryView>, w: Seq<char>) -> bool {
    exists|k: int| 0 <= k < es.len() && (#[trigger] es[k]).wallet == w
}

/// One qualifying entry against a wallet population: the wallet is tracked,
/// its claimable sum is positive and is the entry's amount.
pub open spec fn entry_qualifies(
    us: Seq<UserTaskStateView>,
    e: ClaimEntryView,
    epoch: u64,
) -> bool {
    &&& has_user(us, e.wallet)
    &&& e.amount as int == completed_sum(user_of(us, e.wallet).tasks)
    &&& e.amount > 0
    &&& e.epoch == epoch
}

/// A wallet's state once its Completed tasks are frozen into a snapshot:
/// every Completed task becomes RewardPrepared and the cached total grows by
/// the frozen sum.
pub open spec fn prepared_user(u: UserTaskStateView) -> UserTaskStateView {
    UserTaskStateView {
        wallet: u.wallet,
        tasks: retag_all(u.tasks, TaskStatus::Completed, TaskStatus::RewardPrepared),
        total_unclaimed: (unclaimed_sum(u.tasks) + completed_sum(u.tasks)) as u64,
    }
}

/// Number of tracked wallets whose Completed tasks sum to a positive amount:
/// the leaf count a snapshot build freezes.
pub open spec fn qualifying_count(us: Seq<UserTaskStateView>) -> int
    decreases us.len(),
{
    if us.len() == 0 {
        0
    } else {
        qualifying_count(us.drop_last()) + if completed_sum(us.last().tasks) > 0 {
            1int
        } else {
            0int
        }
    }
}

/// A strictly sorted entry list that qualifies against a wallet population
/// and covers every qualifying wallet holds exactly one entry per qualifying
/// wallet.
#[verifier::rlimit(100)]
pub proof fn lemma_entries_count(us: Seq<UserTaskStateView>, epoch: u64, es: Seq<ClaimEntryView>)
    requires
        users_unique(us),
        entries_sorted(es),
        forall|k: int| 0 <= k < es.len() ==> entry_qualifies(us, #[trigger] es[k], epoch),
        forall|i: int|
            0 <= i < us.len() && completed_sum((#[trigger] us[i]).tasks) > 0 ==> entry_for(
                es,
                us[i].wallet,
            ),
    ensures
        es.len() == qualifying_count(us),
    decreases us.len(),
{
    assert forall|p: int, q: int| 0 <= p < q < es.len() implies (#[trigger] es[p]).wallet != (
    #[trigger] es[q]).wallet by {
        lemma_chars_lt_asymmetric(es[p].wallet, es[q].wallet);
        if es[p].wallet == es[q].wallet {
            assert(chars_lt(es[p].wallet, es[q].wallet));
            assert(chars_lt(es[q].wallet, es[p].wallet));
        }
    }
    if us.len() == 0 {
        if es.len() > 0 {
            assert(entry_qualifies(us, es[0], epoch));
            assert(has_user(us, es[0].wallet));
            let i = choose|i: int| 0 <= i < us.len() && (#[trigger] us[i]).wallet == es[0].wallet;
            assert(false);
        }
    } else {
        let last = us.len() - 1;
        let u = us.last();
        let usd = us.drop_last();
        assert(u == us[last]);
        assert forall|i: int, j: int| 0 <= i < j < usd.len() implies (
        #[trigger] usd[i]).wallet != (#[trigger] usd[j]).wallet by {
            assert(usd[i] == us[i] && usd[j] == us[j]);
        }
        assert forall|i: int| 0 <= i < last implies (#[trigger] us[i]).wallet != u.wallet by {
            assert(us[i].wallet != us[last].wallet);
        }
        if entry_for(es, u.wallet) {
            let k = choose|k: int| 0 <= k < es.len() && (#[trigger] es[k]).wallet == u.wallet;
            assert(entry_qualifies(us, es[k], epoch));
            assert(completed_sum(u.tasks) > 0) by {
                let c = user_index(us, u.wallet);
                assert(0 <= c < us.len() && us[c].wallet == u.wallet);
                if c != last {
                    assert(us[c].wallet != us[last].wallet);
                }
                assert(user_of(us, u.wallet) == u);
            }
            let esd = es.remove(k);
            assert forall|p: int| 0 <= p < esd.len() implies esd[p] == (if p < k {
                es[p]
            } else {
                es[p + 1]
            }) by {
                assert(es.remove(k) =~= es.take(k) + es.skip(k + 1));
            }
            assert forall|p: int, q: int| 0 <= p < q < esd.len() implies chars_lt(
                (#[trigger] esd[p]).wallet,
                (#[trigger] esd[q]).wallet,
            ) by {}
            assert forall|k2: int| 0 <= k2 < esd.len() implies entry_qualifies(
                usd,
                #[trigger] esd[k2],
                epoch,
            ) by {
                let orig: int = if k2 < k {
                    k2
                } else {
                    k2 + 1
                };
                assert(esd[k2] == es[orig]);
                assert(entry_qualifies(us, es[orig], epoch));
                let w = es[orig].wallet;
                assert(w != u.wallet) by {
                    if orig < k {
                        assert(es[orig].wallet != es[k].wallet);
                    } else {
                        assert(es[k].wallet != es[orig].wallet);
                    }
                }
                let i = user_index(us, w);
                assert(0 <= i < us.len() && us[i].wallet == w);
                assert(i != last);
                assert(usd[i].wallet == w);
                assert(has_user(usd, w));
                let i2 = user_index(usd, w);
                assert(0 <= i2 < usd.len() && usd[i2].wallet == w);
                if i2 != i {
                    assert(usd[i2].wallet != usd[i].wallet || usd[i].wallet != usd[i2].wallet);
                    assert(us[i2].wallet == us[i].wallet);
                    assert(us[i2].wallet != us[i].wallet);
                }
                assert(user_of(usd, w) == us[i]);
                assert(user_of(us, w) == us[i]) by {
                    let c = user_index(us, w);
                    if c != i {
                        assert(us[c].wallet != us[i].wallet);
                    }
                }
            }
            assert forall|i: int|
                0 <= i < usd.len() && completed_sum((#[trigger] usd[i]).tasks) > 0 implies
                entry_for(esd, usd[i].wallet) by {
                assert(usd[i] == us[i]);
                assert(entry_for(es, us[i].wallet));
                let k2 = choose|k2: int|
                    0 <= k2 < es.len() && (#[trigger] es[k2]).wallet == us[i].wallet;
                assert(k2 != k) by {
                    assert(us[i].wallet != u.wallet);
                }
                let nk: int = if k2 < k {
                    k2
                } else {
                    k2 - 1
                };
                assert(esd[nk] == es[k2]);
                assert(entry_for(esd, usd[i].wallet));
            }
            lemma_entries_count(usd, epoch, esd);
        } else {
            assert(completed_sum(u.tasks) <= 0) by {
                if completed_sum(us[last].tasks) > 0 {
                    assert(entry_for(es, us[last].wallet));
                }
            }
            assert forall|k2: int| 0 <= k2 < es.len() implies entry_qualifies(
                usd,
                #[trigger] es[k2],
                epoch,
            ) by {
                assert(entry_qualifies(us, es[k2], epoch));
                let w = es[k2].wallet;
                assert(w != u.wallet) by {
                    if w == u.wallet {
                        assert(entry_for(es, u.wallet));
                    }
                }
                let i = user_index(us, w);
                assert(0 <= i < us.len() && us[i].wallet == w);
                assert(i != last);
                assert(usd[i].wallet == w);
                assert(has_user(usd, w));
                let i2 = user_index(usd, w);
                assert(0 <= i2 < usd.len() && usd[i2].wallet == w);
                if i2 != i {
                    assert(us[i2].wallet == usd[i2].wallet);
                    assert(us[i2].wallet != us[i].wallet);
                }
                assert(user_of(usd, w) == us[i]);
                assert(user_of(us, w) == us[i]) by {
                    let c = user_index(us, w);
                    if c != i {
                        assert(us[c].wallet != us[i].wallet);
                    }
                }
            }
            assert forall|i: int|
                0 <= i < usd.len() && completed_sum((#[trigger] usd[i]).tasks) > 0 implies
                entry_for(es, usd[i].wallet) by {
                assert(usd[i] == us[i]);
            }
            lemma_entries_count(usd, epoch, es);
        }
    }
}

/// Two strictly sorted entry lists holding entries for the same wallets list
/// those wallets identically.
pub proof fn lemma_sorted_same_wallets(a: Seq<ClaimEntryView>, b: Seq<ClaimEntryView>)
    requires
        entries_sorted(a),
        entries_sorted(b),
        forall|w: Seq<char>| #[trigger] entry_for(a, w) ==> entry_for(b, w),
        forall|w: Seq<char>| #[trigger] entry_for(b, w) ==> entry_for(a, w),
    ensures
        a.len() == b.len(),
        forall|p: int| 0 <= p < a.len() ==> (#[trigger] a[p]).wallet == b[p].wallet,
    decreases a.len(),
{
    if a.len() == 0 {
        if b.len() > 0 {
            assert(entry_for(b, b[0].wallet));
            assert(entry_for(a, b[0].wallet));
            let k = choose|k: int| 0 <= k < a.len() && (#[trigger] a[k]).wallet == b[0].wallet;
            assert(false);
        }
    } else {
        assert(entry_for(a, a[0].wallet));
        assert(entry_for(b, a[0].wallet));
        let j = choose|j: int| 0 <= j < b.len() && (#[trigger] b[j]).wallet == a[0].wallet;
        assert(entry_for(b, b[0].wallet));
        assert(entry_for(a, b[0].wallet));
        let i = choose|i: int| 0 <= i < a.len() && (#[trigger] a[i]).wallet == b[0].wallet;
        if j > 0 {
            assert(chars_lt(b[0].wallet, b[j].wallet));
            if i > 0 {
                assert(chars_lt(a[0].wallet, a[i].wallet));
                lemma_chars_lt_asymmetric(a[0].wallet, a[i].wallet);
            } else {
                lemma_chars_lt_asymmetric(b[0].wallet, b[j].wallet);
            }
            assert(false);
        }
        assert(a[0].wallet == b[0].wallet);
        let ad = a.drop_first();
        let bd = b.drop_first();
        assert forall|w: Seq<char>| #[trigger] entry_for(ad, w) implies entry_for(bd, w) by {
            let k = choose|k: int| 0 <= k < ad.len() && (#[trigger] ad[k]).wallet == w;
            assert(a[k + 1].wallet == w);
            assert(entry_for(a, w));
            assert(entry_for(b, w));
            let j2 = choose|j2: int| 0 <= j2 < b.len() && (#[trigger] b[j2]).wallet == w;
            if j2 == 0 {
                assert(chars_lt(a[0].wallet, a[k + 1].wallet));
                lemma_chars_lt_asymmetric(a[0].wallet, a[k + 1].wallet);
                assert(false);
            }
            assert(bd[j2 - 1].wallet == w);
            assert(entry_for(bd, w));
        }
        assert forall|w: Seq<char>| #[trigger] entry_for(bd, w) implies entry_for(ad, w) by {
            let k = choose|k: int| 0 <= k < bd.len() && (#[trigger] bd[k]).wallet == w;
            assert(b[k + 1].wallet == w);
            assert(entry_for(b, w));
            assert(entry_for(a, w));
            let i2 = choose|i2: int| 0 <= i2 < a.len() && (#[trigger] a[i2]).wallet == w;
            if i2 == 0 {
                assert(chars_lt(b[0].wallet, b[k + 1].wallet));
                lemma_chars_lt_asymmetric(b[0].wallet, b[k + 1].wallet);
                assert(false);
            }
            assert(ad[i2 - 1].wallet == w);
            assert(entry_for(ad, w));
        }
        assert(entries_sorted(ad)) by {
            assert forall|p: int, q: int| 0 <= p < q < ad.len() implies chars_lt(
                (#[trigger] ad[p]).wallet,
                (#[trigger] ad[q]).wallet,
            ) by {
                assert(ad[p] == a[p + 1] && ad[q] == a[q + 1]);
            }
        }
        assert(entries_sorted(bd)) by {
            assert forall|p: int, q: int| 0 <= p < q < bd.len() implies chars_lt(
                (#[trigger] bd[p]).wallet,
                (#[trigger] bd[q]).wallet,
            ) by {
                assert(bd[p] == b[p + 1] && bd[q] == b[q + 1]);
            }
        }
        lemma_sorted_same_wallets(ad, bd);
        assert forall|p: int| 0 <= p < a.len() implies (#[trigger] a[p]).wallet
            == b[p].wallet by {
            if p > 0 {
                assert(a[p] == ad[p - 1] && b[p] == bd[p - 1]);
                assert(ad[p - 1].wallet == bd[p - 1].wallet);
            }
        }
    }
}

/// The sorted qualifying entry list of a snapshot is unique: two lists that
/// are strictly sorted, qualify against the same wallet population with
/// positional indices, and cover every qualifying wallet, are equal — so two
/// builds from the same population freeze the same root, whatever the clock,
/// the caller or the prior store contents.
pub proof fn lemma_qualifying_entries_unique(
    us: Seq<UserTaskStateView>,
    epoch: u64,
    a: Seq<ClaimEntryView>,
    b: Seq<ClaimEntryView>,
)
    requires
        users_unique(us),
        entries_sorted(a),
        entries_sorted(b),
        forall|k: int|
            0 <= k < a.len() ==> entry_qualifies(us, #[trigger] a[k], epoch) && a[k].index == k,
        forall|k: int|
            0 <= k < b.len() ==> entry_qualifies(us, #[trigger] b[k], epoch) && b[k].index == k,
        forall|i: int|
            0 <= i < us.len() && completed_sum((#[trigger] us[i]).tasks) > 0 ==> entry_for(
                a,
                us[i].wallet,
            ) && entry_for(b, us[i].wallet),
    ensures
        a == b,
        crate::merkle::entries_root(a) == crate::merkle::entries_root(b),
{
    assert forall|w: Seq<char>| #[trigger] entry_for(a, w) implies entry_for(b, w) by {
        let k = choose|k: int| 0 <= k < a.len() && (#[trigger] a[k]).wallet == w;
        assert(entry_qualifies(us, a[k], epoch));
        let i = user_index(us, w);
        assert(0 <= i < us.len() && us[i].wallet == w);
        assert(user_of(us, w) == us[i]);
        assert(completed_sum(us[i].tasks) > 0);
    }
    assert forall|w: Seq<char>| #[trigger] entry_for(b, w) implies entry_for(a, w) by {
        let k = choose|k: int| 0 <= k < b.len() && (#[trigger] b[k]).wallet == w;
        assert(entry_qualifies(us, b[k], epoch));
        let i = user_index(us, w);
        assert(0 <= i < us.len() && us[i].wallet == w);
        assert(user_of(us, w) == us[i]);
        assert(completed_sum(us[i].tasks) > 0);
    }
    lemma_sorted_same_wallets(a, b);
    assert forall|p: int| 0 <= p < a.len() implies a[p] == b[p] by {
        assert(entry_qualifies(us, a[p], epoch));
        assert(entry_qualifies(us, b[p], epoch));
        assert(a[p].wallet == b[p].wallet);
        assert(a[p].amount as int == completed_sum(user_of(us, a[p].wallet).tasks));
        assert(b[p].amount as int == completed_sum(user_of(us, b[p].wallet).tasks));
        assert(a[p] =~= b[p]);
    }
    assert(a =~= b);
}

/// Appending offset records of one epoch leaves every other epoch's offsets
/// untouched.
pub proof fn lemma_offsets_append(
    s: Seq<(EpochLayerKey, LayerOffset)>,
    t: Seq<(EpochLayerKey, LayerOffset)>,
    e0: u64,
)
    requires
        offsets_unique(s),
        forall|i: int| 0 <= i < t.len() ==> (#[trigger] t[i]).0.epoch == e0,
    ensures
        forall|e: u64, l: u32|
            e != e0 ==> (#[trigger] has_offset(s + t, e, l) == has_offset(s, e, l) && (has_offset(
                s,
                e,
                l,
            ) ==> offset_of(s + t, e, l) == offset_of(s, e, l))),
{
    let ghost u = s + t;
    assert(u == s + t);
    assert forall|e: u64, l: u32| e != e0 implies (#[trigger] has_offset(s + t, e, l) == has_offset(
        s,
        e,
        l,
    ) && (has_offset(s, e, l) ==> offset_of(s + t, e, l) == offset_of(s, e, l))) by {
        if has_offset(s, e, l) {
            let i = choose|i: int|
                0 <= i < s.len() && (#[trigger] s[i]).0.epoch == e && s[i].0.layer_id == l;
            assert(u[i] == s[i]);
            assert(has_offset(u, e, l));
            let j = choose|j: int|
                0 <= j < u.len() && (#[trigger] u[j]).0.epoch == e && u[j].0.layer_id == l;
            assert(j < s.len()) by {
                if j >= s.len() {
                    assert(t[j - s.len()].0.epoch == e0);
                }
            }
            assert(u[j] == s[j]);
            if i != j {
                let a = s[i];
                let b = s[j];
                assert(a.0.epoch != b.0.epoch || a.0.layer_id != b.0.layer_id);
            }
        }
        if has_offset(u, e, l) {
            let j = choose|j: int|
                0 <= j < u.len() && (#[trigger] u[j]).0.epoch == e && u[j].0.layer_id == l;
            assert(j < s.len()) by {
                if j >= s.len() {
                    assert(t[j - s.len()].0.epoch == e0);
                }
            }
            assert(u[j] == s[j]);
            assert(has_offset(s, e, l));
        }
    }
}

/// Appending leaf-index records of one epoch leaves every other epoch's
/// records untouched.
pub proof fn lemma_windex_append(s: Seq<WalletLeaf>, t: Seq<WalletLeaf>, e0: u64)
    requires
        windex_unique(s),
        forall|i: int| 0 <= i < t.len() ==> (#[trigger] t[i]).0.0 == e0,
    ensures
        forall|e: u64, w: Seq<char>|
            e != e0 ==> (#[trigger] has_leaf(s + t, e, w) == has_leaf(s, e, w) && (has_leaf(
                s,
                e,
                w,
            ) ==> leaf_of(s + t, e, w) == leaf_of(s, e, w))),
{
    let ghost u = s + t;
    assert(u == s + t);
    assert forall|e: u64, w: Seq<char>| e != e0 implies (#[trigger] has_leaf(s + t, e, w) == has_leaf(
        s,
        e,
        w,
    ) && (has_leaf(s, e, w) ==> leaf_of(s + t, e, w) == leaf_of(s, e, w))) by {
        if has_leaf(s, e, w) {
            let i = choose|i: int|
                0 <= i < s.len() && (#[trigger] s[i]).0.0 == e && s[i].0.1 == w;
            assert(u[i] == s[i]);
            assert(has_leaf(u, e, w));
            let j = choose|j: int|
                0 <= j < u.len() && (#[trigger] u[j]).0.0 == e && u[j].0.1 == w;
            assert(j < s.len()) by {
                if j >= s.len() {
                    assert(t[j - s.len()].0.0 == e0);
                }
            }
            assert(u[j] == s[j]);
            if i != j {
                let a = s[i];
                let b = s[j];
                assert(a.0.0 != b.0.0 || a.0.1 != b.0.1);
            }
        }
        if has_leaf(u, e, w) {
            let j = choose|j: int|
                0 <= j < u.len() && (#[trigger] u[j]).0.0 == e && u[j].0.1 == w;
            assert(j < s.len()) by {
                if j >= s.len() {
                    assert(t[j - s.len()].0.0 == e0);
                }
            }
            assert(u[j] == s[j]);
            assert(has_leaf(s, e, w));
        }
    }
}

/// Slotting a fresh epoch's snapshot into its key-ordered place keeps the
/// metadata strictly sorted and every other epoch's record unchanged.
pub proof fn lemma_metas_insert(s: Seq<MerkleSnapshotMetaView>, m: MerkleSnapshotMetaView, k: int)
    requires
        metas_sorted(s),
        !has_meta(s, m.epoch),
        0 <= k <= s.len(),
        forall|j: int| 0 <= j < k ==> (#[trigger] s[j]).epoch < m.epoch,
        k < s.len() ==> m.epoch < s[k].epoch,
    ensures
        metas_sorted(s.insert(k, m)),
        metas_unique(s.insert(k, m)),
        s.insert(k, m).len() == s.len() + 1,
        has_meta(s.insert(k, m), m.epoch),
        meta_of(s.insert(k, m), m.epoch) == m,
        forall|e: u64|
            e != m.epoch ==> (#[trigger] has_meta(s.insert(k, m), e) == has_meta(s, e) && (
            has_meta(s, e) ==> meta_of(s.insert(k, m), e) == meta_of(s, e))),
        forall|i: int|
            0 <= i < s.insert(k, m).len() ==> ((#[trigger] s.insert(k, m)[i]) == m || exists|
                j: int,
            | 0 <= j < s.len() && s[j] == s.insert(k, m)[i]),
{
    let u = s.insert(k, m);
    assert forall|p: int| 0 <= p < u.len() implies u[p] == (if p < k {
        s[p]
    } else if p == k {
        m
    } else {
        s[p - 1]
    }) by {
        assert(s.insert(k, m) =~= s.take(k) + seq![m] + s.skip(k));
    }
    assert forall|i: int, j: int| 0 <= i < j < u.len() implies (#[trigger] u[i]).epoch < (
    #[trigger] u[j]).epoch by {
        if i == k && j > k + 1 {
            assert(m.epoch < s[k].epoch);
            assert(s[k].epoch < s[j - 1].epoch);
        }
    }
    assert(u[k] == m);
    assert(has_meta(u, m.epoch));
    let c0 = meta_index(u, m.epoch);
    assert(0 <= c0 < u.len() && u[c0].epoch == m.epoch);
    if c0 < k {
        assert(s[c0].epoch == m.epoch);
        assert(has_meta(s, m.epoch));
    } else if c0 > k {
        assert(s[c0 - 1].epoch == m.epoch);
        assert(has_meta(s, m.epoch));
    }
    assert(meta_of(u, m.epoch) == m);
    assert forall|e: u64| e != m.epoch implies (#[trigger] has_meta(u, e) == has_meta(s, e) && (
    has_meta(s, e) ==> meta_of(u, e) == meta_of(s, e))) by {
        if has_meta(s, e) {
            let i = meta_index(s, e);
            assert(0 <= i < s.len() && s[i].epoch == e);
            let ti: int = if i < k {
                i
            } else {
                i + 1
            };
            assert(u[ti] == s[i]);
            assert(has_meta(u, e));
            let j = meta_index(u, e);
            assert(0 <= j < u.len() && u[j].epoch == e);
            assert(j != k);
            let sj: int = if j < k {
                j
            } else {
                j - 1
            };
            assert(u[j] == s[sj]);
            if i != sj {
                assert(s[i].epoch != s[sj].epoch) by {
                    if i < sj {
                        assert(s[i].epoch < s[sj].epoch);
                    } else {
                        assert(s[sj].epoch < s[i].epoch);
                    }
                }
            }
        }
        if has_meta(u, e) {
            let j = meta_index(u, e);
            assert(0 <= j < u.len() && u[j].epoch == e);
            assert(j != k);
            let sj: int = if j < k {
                j
            } else {
                j - 1
            };
            assert(u[j] == s[sj]);
            assert(has_meta(s, e));
        }
    }
    assert forall|i: int| 0 <= i < u.len() implies ((#[trigger] u[i]) == m || exists|j: int|
        0 <= j < s.len() && s[j] == u[i]) by {
        if i < k {
            assert(s[i] == u[i]);
        } else if i > k {
            assert(s[i - 1] == u[i]);
        }
    }
}

/// Inserts an entry for a wallet not yet present, keeping the list strictly
/// sorted by wallet and its members otherwise unchanged.
#[verifier::loop_isolation(false)]
fn insert_entry_sorted(entries: &mut Vec<ClaimEntry>, e: ClaimEntry)
    requires
        entries_sorted(old(entries)@.map_values(|x: ClaimEntry| x@)),
        forall|k: int|
            0 <= k < old(entries)@.len() ==> (#[trigger] old(entries)@[k])@.wallet != e@.wallet,
    ensures
        final(entries)@.len() == old(entries)@.len() + 1,
        entries_sorted(final(entries)@.map_values(|x: ClaimEntry| x@)),
        entry_for(final(entries)@.map_values(|x: ClaimEntry| x@), e@.wallet),
        forall|k: int|
            0 <= k < final(entries)@.len() ==> ((#[trigger] final(entries)@[k])@ == e@ || exists|
                j: int,
            | 0 <= j < old(entries)@.len() && (#[trigger] old(entries)@[j])@
                == final(entries)@[k]@),
        forall|j: int|
            0 <= j < old(entries)@.len() ==> exists|k: int|
                0 <= k < final(entries)@.len() && (#[trigger] final(entries)@[k])@ == (
                #[trigger] old(entries)@[j])@,
        forall|k: int|
            0 <= k < final(entries)@.len() ==> ((#[trigger] final(entries)@[k])@.wallet
                == e@.wallet ==> final(entries)@[k]@ == e@),
{
    let ghost pre: Seq<ClaimEntryView> = entries@.map_values(|x: ClaimEntry| x@);
    let n = entries.len();
    let mut pos: usize = 0;
    while pos < n
        invariant
            pos <= n,
            n == pre.len(),
            pre == entries@.map_values(|x: ClaimEntry| x@),
            forall|m: int| 0 <= m < pos ==> !chars_lt(e@.wallet, (#[trigger] pre[m]).wallet),
        decreases n - pos,
    {
        if str_lt(e.wallet.as_str(), entries[pos].wallet.as_str()) {
            break ;
        }
        pos = pos + 1;
    }
    proof {
        assert forall|m: int| 0 <= m < pos implies chars_lt(
            (#[trigger] pre[m]).wallet,
            e@.wallet,
        ) by {
            lemma_chars_lt_connected(pre[m].wallet, e@.wallet);
        }
    }
    entries.insert(pos, e);
    let ghost post: Seq<ClaimEntryView> = entries@.map_values(|x: ClaimEntry| x@);
    proof {
        assert(post =~= pre.insert(pos as int, e@));
        assert(post[pos as int] == e@);
        assert forall|k: int| 0 <= k < post.len() implies (post[k] == if k < pos {
            pre[k]
        } else if k == pos {
            e@
        } else {
            pre[k - 1]
        }) by {
            assert(pre.insert(pos as int, e@) =~= pre.take(pos as int) + seq![e@] + pre.skip(
                pos as int,
            ));
        }
        assert forall|i: int, j: int| 0 <= i < j < post.len() implies chars_lt(
            (#[trigger] post[i]).wallet,
            (#[trigger] post[j]).wallet,
        ) by {
            if i < pos && j == pos {
            } else if i == pos && j > pos {
                if j - 1 > pos {
                    lemma_chars_lt_transitive(
                        e@.wallet,
                        pre[pos as int].wallet,
                        pre[j - 1].wallet,
                    );
                }
            } else {
            }
        }
        assert(entry_for(post, e@.wallet));
        assert forall|j: int| 0 <= j < old(entries)@.len() implies exists|k: int|
            0 <= k < entries@.len() && (#[trigger] entries@[k])@ == (
            #[trigger] old(entries)@[j])@ by {
            assert(pre[j] == old(entries)@[j]@);
            if j < pos {
                assert(entries@[j]@ == post[j]);
                assert(post[j] == pre[j]);
            } else {
                assert(entries@[j + 1]@ == post[j + 1]);
                assert(post[j + 1] == pre[j]);
            }
        }
        assert forall|k: int| 0 <= k < entries@.len() implies ((#[trigger] entries@[k])@ == e@
            || exists|j: int|
            0 <= j < old(entries)@.len() && (#[trigger] old(entries)@[j])@ == entries@[k]@) by {
            assert(entries@[k]@ == post[k]);
            if k < pos {
                assert(old(entries)@[k]@ == pre[k]);
                assert(pre[k] == post[k]);
            } else if k > pos {
                assert(old(entries)@[k - 1]@ == pre[k - 1]);
                assert(pre[k - 1] == post[k]);
            }
        }
        assert forall|k: int|
            0 <= k < entries@.len() && (#[trigger] entries@[k])@.wallet == e@.wallet implies
            entries@[k]@ == e@ by {
            assert(entries@[k]@ == post[k]);
            if k < pos {
                assert(pre[k] == post[k]);
                assert(false);
            } else if k > pos {
                assert(pre[k - 1] == post[k]);
                assert(false);
            }
        }
    }
}


impl RewardEngine {
    /// Collects one claim entry per wallet whose Completed tasks sum to a
    /// positive amount, sorted ascending by wallet string.
    #[verifier::loop_isolation(false)]
    #[verifier::rlimit(100)]
    fn collect_sorted_entries(&self, epoch: u64) -> (entries: Vec<ClaimEntry>)
        requires
            self.wf(),
            forall|i: int|
                0 <= i < self.users_v().len() ==> unclaimed_sum(
                    (#[trigger] self.users_v()[i]).tasks,
                ) + completed_sum(self.users_v()[i].tasks) <= u64::MAX,
        ensures
            entries_sorted(entries@.map_values(|x: ClaimEntry| x@)),
            entries@.len() <= self.users_v().len(),
            forall|k: int|
                0 <= k < entries@.len() ==> entry_qualifies(
                    self.users_v(),
                    (#[trigger] entries@[k])@,
                    epoch,
                ),
            forall|i: int|
                0 <= i < self.users_v().len() && completed_sum(
                    (#[trigger] self.users_v()[i]).tasks,
                ) > 0 ==> entry_for(
                    entries@.map_values(|x: ClaimEntry| x@),
                    self.users_v()[i].wallet,
                ),
    {
        let n = self.users.len();
        let mut entries: Vec<ClaimEntry> = Vec::new();
        let mut i: usize = 0;
        while i < n
            invariant
                i <= n,
                n == self.users_v().len(),
                entries@.len() <= i,
                entries_sorted(entries@.map_values(|x: ClaimEntry| x@)),
                forall|k: int|
                    0 <= k < entries@.len() ==> entry_qualifies(
                        self.users_v(),
                        (#[trigger] entries@[k])@,
                        epoch,
                    ),
                forall|k: int|
                    0 <= k < entries@.len() ==> exists|j: int|
                        0 <= j < i && (#[trigger] entries@[k])@.wallet == self.users_v()[j].wallet,
                forall|j: int|
                    0 <= j < i && completed_sum((#[trigger] self.users_v()[j]).tasks) > 0
                        ==> entry_for(
                        entries@.map_values(|x: ClaimEntry| x@),
                        self.users_v()[j].wallet,
                    ),
            decreases n - i,
        {
            let ghost uv = self.users_v()[i as int];
            proof {
                assert(user_wf(uv));
                assert(completed_sum(uv.tasks) >= 0 && unclaimed_sum(uv.tasks) >= 0) by {
                    crate::types::lemma_sums_prefix(uv.tasks, uv.tasks.len() as int);
                    assert(uv.tasks.take(uv.tasks.len() as int) =~= uv.tasks);
                }
            }
            let total = compute_completed_total(&self.users[i].tasks);
            if total > 0 {
                let e = ClaimEntry {
                    epoch,
                    index: 0,
                    wallet: self.users[i].wallet.clone(),
                    amount: total,
                };
                let ghost pre = entries@;
                proof {
                    assert(e@.wallet == uv.wallet);
                    assert forall|k: int| 0 <= k < entries@.len() implies (
                    #[trigger] entries@[k])@.wallet != e@.wallet by {
                        let j = choose|j: int|
                            0 <= j < i && (#[trigger] entries@[k])@.wallet
                                == self.users_v()[j].wallet;
                        assert(self.users_v()[j].wallet != self.users_v()[i as int].wallet);
                    }
                    assert(has_user(self.users_v(), e@.wallet));
                    let c = user_index(self.users_v(), e@.wallet);
                    assert(0 <= c < self.users_v().len() && self.users_v()[c].wallet == e@.wallet);
                    if c != i as int {
                        let a = self.users_v()[c];
                        let b = self.users_v()[i as int];
                        assert(a.wallet != b.wallet);
                    }
                    assert(user_of(self.users_v(), e@.wallet) == uv);
                    assert(entry_qualifies(self.users_v(), e@, epoch));
                }
                insert_entry_sorted(&mut entries, e);
                proof {
                    assert forall|k: int| 0 <= k < entries@.len() implies entry_qualifies(
                        self.users_v(),
                        (#[trigger] entries@[k])@,
                        epoch,
                    ) by {
                        if entries@[k]@ != e@ {
                            let j = choose|j: int|
                                0 <= j < pre.len() && (#[trigger] pre[j])@ == entries@[k]@;
                            assert(entry_qualifies(self.users_v(), pre[j]@, epoch));
                        }
                    }
                    assert forall|k: int| 0 <= k < entries@.len() implies exists|j: int|
                        0 <= j < i + 1 && (#[trigger] entries@[k])@.wallet
                            == self.users_v()[j].wallet by {
                        if entries@[k]@ == e@ {
                            assert(entries@[k]@.wallet == self.users_v()[i as int].wallet);
                        } else {
                            let j = choose|j: int|
                                0 <= j < pre.len() && (#[trigger] pre[j])@ == entries@[k]@;
                            let j2 = choose|j2: int|
                                0 <= j2 < i && (#[trigger] pre[j])@.wallet
                                    == self.users_v()[j2].wallet;
                            assert(entries@[k]@.wallet == self.users_v()[j2].wallet);
                        }
                    }
                    assert forall|j: int|
                        0 <= j < i + 1 && completed_sum((#[trigger] self.users_v()[j]).tasks)
                            > 0 implies entry_for(
                        entries@.map_values(|x: ClaimEntry| x@),
                        self.users_v()[j].wallet,
                    ) by {
                        if j == i as int {
                            assert(entry_for(
                                entries@.map_values(|x: ClaimEntry| x@),
                                e@.wallet,
                            ));
                        } else {
                            let pm = pre.map_values(|x: ClaimEntry| x@);
                            assert(entry_for(pm, self.users_v()[j].wallet));
                            let k0 = choose|k0: int|
                                0 <= k0 < pm.len() && (#[trigger] pm[k0]).wallet
                                    == self.users_v()[j].wallet;
                            assert(pre[k0]@.wallet == self.users_v()[j].wallet);
                            let k1 = choose|k1: int|
                                0 <= k1 < entries@.len() && (#[trigger] entries@[k1])@
                                    == pre[k0]@;
                            assert(entries@.map_values(|x: ClaimEntry| x@)[k1].wallet
                                == self.users_v()[j].wallet);
                        }
                    }
                }
            } else {
                proof {
                    assert(completed_sum(uv.tasks) <= 0);
                }
            }
            i = i + 1;
        }
        entries
    }

    /// Appends one layer's hashes to the flat store and records the layer's
    /// offset.
    #[verifier::loop_isolation(false)]
    fn persist_layer(&mut self, epoch: u64, layer_id: u32, layer: &Vec<Vec<u8>>) -> (start: u64)
        requires
            layer@.len() <= u32::MAX,
        ensures
            start == old(self).layers_v().len(),
            final(self).layers_v() == old(self).layers_v() + crate::merkle::hashes_view(layer@),
            final(self).offsets_v() == old(self).offsets_v().push(
                (
                    EpochLayerKey { epoch, layer_id },
                    LayerOffset { start, len: layer@.len() as u32 },
                ),
            ),
            final(self).contract_v() == old(self).contract_v(),
            final(self).users_v() == old(self).users_v(),
            final(self).payments_v() == old(self).payments_v(),
            final(self).metas_v() == old(self).metas_v(),
            final(self).windex_v() == old(self).windex_v(),
    {
        let start = self.layers.len() as u64;
        let n = layer.len();
        let mut j: usize = 0;
        while j < n
            invariant
                j <= n,
                n == layer@.len(),
                self.layers_v() =~= old(self).layers_v() + crate::merkle::hashes_view(
                    layer@.take(j as int),
                ),
                self.contract_v() == old(self).contract_v(),
                self.users_v() == old(self).users_v(),
                self.payments_v() == old(self).payments_v(),
                self.metas_v() == old(self).metas_v(),
                self.windex_v() == old(self).windex_v(),
                self.offsets_v() == old(self).offsets_v(),
            decreases n - j,
        {
            let ghost prev = self.layers_v();
            self.layers.push(MerkleHash(crate::types::clone_bytes(&layer[j])));
            proof {
                assert(self.layers_v() =~= prev.push(layer@[j as int]@));
                assert(layer@.take(j as int + 1) =~= layer@.take(j as int).push(
                    layer@[j as int],
                ));
                assert(crate::merkle::hashes_view(layer@.take(j as int + 1))
                    =~= crate::merkle::hashes_view(layer@.take(j as int)).push(
                    layer@[j as int]@,
                ));
                assert(self.layers_v() =~= old(self).layers_v() + crate::merkle::hashes_view(
                    layer@.take(j as int + 1),
                ));
            }
            j = j + 1;
        }
        proof {
            assert(layer@.take(n as int) =~= layer@);
        }
        self.layer_offsets.push(
            (EpochLayerKey { epoch, layer_id }, LayerOffset { start, len: n as u32 }),
        );
        start
    }
}


use crate::merkle::build_layers;
use crate::merkle::hashes_view;
use crate::merkle::leaves_of_entries;
use crate::merkle::lemma_layer_at_size;
use crate::merkle::lemma_layer_size_le;
use crate::merkle::lemma_num_layers_le;
use crate::merkle::entries_root;
use crate::order::lemma_chars_lt_asymmetric;

/// A frozen snapshot stays intact when the snapshot stores only grow by
/// records of a different epoch.
pub proof fn lemma_epoch_wf_extend(
    a: RewardEngine,
    b: RewardEngine,
    m: MerkleSnapshotMetaView,
    e0: u64,
    extra_layers: Seq<Seq<u8>>,
    extra_offsets: Seq<(EpochLayerKey, LayerOffset)>,
    extra_windex: Seq<WalletLeaf>,
)
    requires
        a.epoch_wf(m),
        a.wf(),
        m.epoch != e0,
        b.layers_v() == a.layers_v() + extra_layers,
        b.offsets_v() == a.offsets_v() + extra_offsets,
        b.windex_v() == a.windex_v() + extra_windex,
        forall|i: int| 0 <= i < extra_offsets.len() ==> (#[trigger] extra_offsets[i]).0.epoch == e0,
        forall|i: int| 0 <= i < extra_windex.len() ==> (#[trigger] extra_windex[i]).0.0 == e0,
    ensures
        b.epoch_wf(m),
{
    lemma_offsets_append(a.offsets_v(), extra_offsets, e0);
    lemma_windex_append(a.windex_v(), extra_windex, e0);
    let n = m.leaves_count as nat;
    let ls = num_layers(n);
    assert forall|l: u32| (l as nat) < ls implies #[trigger] has_offset(
        b.offsets_v(),
        m.epoch,
        l,
    ) by {
        assert(has_offset(a.offsets_v(), m.epoch, l));
        assert(has_offset(a.offsets_v() + extra_offsets, m.epoch, l));
    }
    assert forall|l: u32| (l as nat) < ls implies #[trigger] b.epoch_layer(m.epoch, l)
        == a.epoch_layer(m.epoch, l) by {
        assert(has_offset(a.offsets_v(), m.epoch, l));
        assert(has_offset(a.offsets_v() + extra_offsets, m.epoch, l));
        assert(offset_of(a.offsets_v() + extra_offsets, m.epoch, l) == offset_of(
            a.offsets_v(),
            m.epoch,
            l,
        ));
        let off = offset_of(a.offsets_v(), m.epoch, l);
        assert(off.start as int + off.len as int <= a.layers_v().len());
        assert(b.epoch_layer(m.epoch, l) =~= a.epoch_layer(m.epoch, l));
    }
    assert forall|l: u32| (l as nat) < ls implies {
        let off = #[trigger] offset_of(b.offsets_v(), m.epoch, l);
        off.start as int + off.len as int <= b.layers_v().len() && off.len as nat == layer_size(
            n,
            l as nat,
        )
    } by {
        assert(has_offset(a.offsets_v(), m.epoch, l));
        assert(has_offset(a.offsets_v() + extra_offsets, m.epoch, l));
        assert(offset_of(a.offsets_v() + extra_offsets, m.epoch, l) == offset_of(
            a.offsets_v(),
            m.epoch,
            l,
        ));
        assert(b.layers_v().len() == a.layers_v().len() + extra_layers.len());
    }
    assert forall|i: int|
        0 <= i < b.windex_v().len() && (#[trigger] b.windex_v()[i]).0.0 == m.epoch implies {
        let w = b.windex_v()[i].0.1;
        let idx = b.windex_v()[i].1.0;
        let amt = b.windex_v()[i].1.1;
        &&& (idx as int) < m.leaves_count
        &&& wallet_is_valid(w)
        &&& b.epoch_layer(m.epoch, 0)[idx as int] == leaf_hash(m.epoch, idx, wallet_bytes(w), amt)
    } by {
        if i < a.windex_v().len() {
            assert(b.windex_v()[i] == a.windex_v()[i]);
        } else {
            assert(b.windex_v()[i] == extra_windex[i - a.windex_v().len()]);
            assert(false);
        }
    }
}

/// After a snapshot build writes its layers, offsets, leaf index, wallet
/// transitions and metadata, the engine is well formed again, the new epoch's
/// records are in place and every older epoch is untouched.
#[verifier::rlimit(100)]
pub proof fn lemma_build_snapshot_wf(
    a: RewardEngine,
    b: RewardEngine,
    epoch: u64,
    es: Seq<ClaimEntryView>,
    lv: Seq<Seq<u8>>,
    flat: Seq<Seq<u8>>,
    new_offs: Seq<(EpochLayerKey, LayerOffset)>,
    new_w: Seq<WalletLeaf>,
    mv: MerkleSnapshotMetaView,
)
    requires
        a.wf(),
        !has_meta(a.metas_v(), epoch),
        entries_sorted(es),
        1 <= es.len() < u32::MAX,
        forall|k: int|
            0 <= k < es.len() ==> entry_qualifies(a.users_v(), #[trigger] es[k], epoch)
                && es[k].index == k,
        forall|i: int|
            0 <= i < a.users_v().len() && completed_sum((#[trigger] a.users_v()[i]).tasks) > 0
                ==> entry_for(es, a.users_v()[i].wallet),
        forall|i: int|
            0 <= i < a.users_v().len() ==> unclaimed_sum((#[trigger] a.users_v()[i]).tasks)
                + completed_sum(a.users_v()[i].tasks) <= u64::MAX,
        lv == leaves_of_entries(es),
        mv.epoch == epoch,
        mv.leaves_count as int == es.len(),
        mv.root == merkle_root(lv),
        mv.root.len() == 32,
        b.contract_v() == a.contract_v(),
        b.payments_v() == a.payments_v(),
        b.metas_v().len() == a.metas_v().len() + 1,
        metas_sorted(b.metas_v()),
        has_meta(b.metas_v(), epoch),
        meta_of(b.metas_v(), epoch) == mv,
        forall|i: int|
            0 <= i < b.metas_v().len() ==> ((#[trigger] b.metas_v()[i]) == mv || exists|j: int|
                0 <= j < a.metas_v().len() && a.metas_v()[j] == b.metas_v()[i]),
        forall|e: u64|
            e != epoch ==> (#[trigger] has_meta(b.metas_v(), e) == has_meta(a.metas_v(), e) && (
            has_meta(a.metas_v(), e) ==> meta_of(b.metas_v(), e) == meta_of(a.metas_v(), e))),
        b.layers_v() == a.layers_v() + flat,
        forall|i: int| 0 <= i < flat.len() ==> (#[trigger] flat[i]).len() == 32,
        b.offsets_v() == a.offsets_v() + new_offs,
        new_offs.len() == num_layers(lv.len()),
        forall|t: int|
            0 <= t < new_offs.len() ==> (#[trigger] new_offs[t]).0 == (EpochLayerKey {
                epoch,
                layer_id: t as u32,
            }),
        forall|t: int|
            0 <= t < new_offs.len() ==> {
                let off = (#[trigger] new_offs[t]).1;
                &&& off.start as int + off.len as int <= b.layers_v().len()
                &&& off.len as nat == layer_size(lv.len(), t as nat)
                &&& b.layers_v().subrange(
                    off.start as int,
                    off.start as int + off.len as int,
                ) == layer_at(lv, t as nat)
            },
        b.windex_v() == a.windex_v() + new_w,
        new_w.len() == es.len(),
        forall|t: int|
            0 <= t < new_w.len() ==> (#[trigger] new_w[t]) == (((epoch, es[t].wallet), (es[t].index, es[t].amount))),
        b.users_v().len() == a.users_v().len(),
        forall|j: int|
            0 <= j < a.users_v().len() ==> (#[trigger] b.users_v()[j]).wallet
                == a.users_v()[j].wallet,
        forall|j: int|
            0 <= j < a.users_v().len() ==> (#[trigger] b.users_v()[j]) == (if (exists|t: int|
                0 <= t < es.len() && (#[trigger] es[t]).wallet == a.users_v()[j].wallet) {
                prepared_user(a.users_v()[j])
            } else {
                a.users_v()[j]
            }),
    ensures
        b.wf(),
        has_meta(b.metas_v(), epoch),
        meta_of(b.metas_v(), epoch) == mv,
        mv.root == entries_root(es),
        forall|k: int|
            0 <= k < es.len() ==> has_leaf(b.windex_v(), epoch, (#[trigger] es[k]).wallet)
                && leaf_of(b.windex_v(), epoch, es[k].wallet) == (es[k].index, es[k].amount),
        forall|e: u64, w: Seq<char>|
            e != epoch ==> (#[trigger] has_leaf(b.windex_v(), e, w) == has_leaf(a.windex_v(), e, w)
                && (has_leaf(a.windex_v(), e, w) ==> leaf_of(b.windex_v(), e, w) == leaf_of(
                a.windex_v(),
                e,
                w,
            ))),
        engine_steps_ok(a.users_v(), b.users_v()),
        forall|w: Seq<char>|
            #[trigger] has_user(a.users_v(), w) ==> has_user(b.users_v(), w) && user_of(
                b.users_v(),
                w,
            ) == (if completed_sum(user_of(a.users_v(), w).tasks) > 0 {
                prepared_user(user_of(a.users_v(), w))
            } else {
                user_of(a.users_v(), w)
            }),
{
    let n = lv.len();
    let ls = num_layers(n);
    assert(lv.len() == es.len());
    lemma_num_layers_le(n);
    // Entry wallets are pairwise distinct.
    assert forall|t1: int, t2: int| 0 <= t1 < t2 < es.len() implies (#[trigger] es[t1]).wallet != (
    #[trigger] es[t2]).wallet by {
        lemma_chars_lt_asymmetric(es[t1].wallet, es[t2].wallet);
        if es[t1].wallet == es[t2].wallet {
            assert(chars_lt(es[t1].wallet, es[t2].wallet));
            assert(chars_lt(es[t2].wallet, es[t1].wallet));
        }
    }
    // Metadata store: strictly sorted epochs are pairwise distinct.
    assert forall|i: int, j: int| 0 <= i < j < b.metas_v().len() implies (
    #[trigger] b.metas_v()[i]).epoch != (#[trigger] b.metas_v()[j]).epoch by {
        assert(b.metas_v()[i].epoch < b.metas_v()[j].epoch);
    }
    // Users.
    assert forall|i: int, j: int| 0 <= i < j < b.users_v().len() implies (
    #[trigger] b.users_v()[i]).wallet != (#[trigger] b.users_v()[j]).wallet by {
        assert(a.users_v()[i].wallet != a.users_v()[j].wallet);
    }
    assert forall|j: int| 0 <= j < b.users_v().len() implies user_wf(#[trigger] b.users_v()[j]) by {
        assert(user_wf(a.users_v()[j]));
        if b.users_v()[j] != a.users_v()[j] {
            let u = a.users_v()[j];
            let p = prepared_user(u);
            assert(b.users_v()[j] == p);
            let nts = retag_all(u.tasks, TaskStatus::Completed, TaskStatus::RewardPrepared);
            assert forall|q: int| 0 <= q < u.tasks.len() implies #[trigger] nts[q] == (if u.tasks[q].status == TaskStatus::Completed {
                UserTaskDetailView {
                    taskid: u.tasks[q].taskid,
                    status: TaskStatus::RewardPrepared,
                    completed_at: u.tasks[q].completed_at,
                    reward_amount: u.tasks[q].reward_amount,
                    evidence: u.tasks[q].evidence,
                }
            } else {
                u.tasks[q]
            }) by {
                assert(nts[q] == retag(u.tasks[q], TaskStatus::Completed,
                    TaskStatus::RewardPrepared));
            }
            crate::types::lemma_prepare_sums(u.tasks, nts);
            assert forall|q1: int, q2: int| 0 <= q1 < q2 < nts.len() implies (
            #[trigger] nts[q1]).taskid != (#[trigger] nts[q2]).taskid by {
                assert(nts[q1].taskid == u.tasks[q1].taskid);
                assert(nts[q2].taskid == u.tasks[q2].taskid);
                assert(u.tasks[q1].taskid != u.tasks[q2].taskid);
            }
            // The frozen total still fits in a 64-bit cache.
            assert(unclaimed_sum(u.tasks) + completed_sum(u.tasks) <= u64::MAX);
        }
    }
    assert forall|w: Seq<char>| #[trigger] has_user(a.users_v(), w) implies has_user(
        b.users_v(),
        w,
    ) && user_of(b.users_v(), w) == (if completed_sum(user_of(a.users_v(), w).tasks) > 0 {
        prepared_user(user_of(a.users_v(), w))
    } else {
        user_of(a.users_v(), w)
    }) && user_steps_ok(user_of(a.users_v(), w), user_of(b.users_v(), w)) by {
        let j = user_index(a.users_v(), w);
        assert(0 <= j < a.users_v().len() && a.users_v()[j].wallet == w);
        assert(b.users_v()[j].wallet == w);
        assert(has_user(b.users_v(), w));
        let j2 = user_index(b.users_v(), w);
        assert(0 <= j2 < b.users_v().len() && b.users_v()[j2].wallet == w);
        if j2 != j {
            assert(a.users_v()[j2].wallet == b.users_v()[j2].wallet);
            assert(a.users_v()[j].wallet != a.users_v()[j2].wallet);
        }
        assert(user_of(a.users_v(), w) == a.users_v()[j]);
        assert(user_of(b.users_v(), w) == b.users_v()[j]);
        let u = a.users_v()[j];
        // Included exactly when some Completed reward is positive.
        if exists|t: int| 0 <= t < es.len() && (#[trigger] es[t]).wallet == u.wallet {
            let t0 = choose|t0: int|
                0 <= t0 < es.len() && (#[trigger] es[t0]).wallet == u.wallet;
            assert(entry_qualifies(a.users_v(), es[t0], epoch));
            let ju = user_index(a.users_v(), u.wallet);
            if ju != j {
                assert(a.users_v()[ju].wallet != a.users_v()[j].wallet);
            }
            assert(user_of(a.users_v(), u.wallet) == u);
            assert(completed_sum(u.tasks) > 0);
        } else {
            if completed_sum(u.tasks) > 0 {
                assert(entry_for(es, u.wallet));
            }
        }
        // The lifecycle chain holds task by task.
        let bu = b.users_v()[j];
        assert forall|q: int| 0 <= q < u.tasks.len() implies status_step_ok(
            (#[trigger] u.tasks[q]).status,
            bu.tasks[q].status,
        ) by {
            if bu != u {
                assert(bu.tasks[q] == retag(u.tasks[q], TaskStatus::Completed,
                    TaskStatus::RewardPrepared));
            }
        }
    }
    // Offsets: old keys belong to older epochs.
    assert forall|i: int|
        0 <= i < a.offsets_v().len() implies (#[trigger] a.offsets_v()[i]).0.epoch != epoch by {
        assert(has_meta(a.metas_v(), a.offsets_v()[i].0.epoch));
    }
    assert forall|i: int, j: int| 0 <= i < j < b.offsets_v().len() implies ((
    #[trigger] b.offsets_v()[i]).0.epoch != (#[trigger] b.offsets_v()[j]).0.epoch || b.offsets_v()[
        i].0.layer_id != b.offsets_v()[j].0.layer_id) by {
        let al = a.offsets_v().len() as int;
        if j < al {
            assert(b.offsets_v()[i] == a.offsets_v()[i]);
            assert(b.offsets_v()[j] == a.offsets_v()[j]);
        } else if i < al {
            assert(b.offsets_v()[i] == a.offsets_v()[i]);
            assert(b.offsets_v()[j] == new_offs[j - al]);
        } else {
            assert(b.offsets_v()[i] == new_offs[i - al]);
            assert(b.offsets_v()[j] == new_offs[j - al]);
        }
    }
    lemma_offsets_append(a.offsets_v(), new_offs, epoch);
    // Leaf index: old keys belong to older epochs.
    assert forall|i: int|
        0 <= i < a.windex_v().len() implies (#[trigger] a.windex_v()[i]).0.0 != epoch by {
        assert(has_meta(a.metas_v(), a.windex_v()[i].0.0));
    }
    assert forall|i: int, j: int| 0 <= i < j < b.windex_v().len() implies ((
    #[trigger] b.windex_v()[i]).0.0 != (#[trigger] b.windex_v()[j]).0.0 || b.windex_v()[i].0.1
        != b.windex_v()[j].0.1) by {
        let al = a.windex_v().len() as int;
        if j < al {
            assert(b.windex_v()[i] == a.windex_v()[i]);
            assert(b.windex_v()[j] == a.windex_v()[j]);
        } else if i < al {
            assert(b.windex_v()[i] == a.windex_v()[i]);
            assert(b.windex_v()[j] == new_w[j - al]);
        } else {
            assert(b.windex_v()[i] == new_w[i - al]);
            assert(b.windex_v()[j] == new_w[j - al]);
        }
    }
    lemma_windex_append(a.windex_v(), new_w, epoch);
    // The new epoch's leaf-index records are in place.
    assert forall|k: int| 0 <= k < es.len() implies has_leaf(
        b.windex_v(),
        epoch,
        (#[trigger] es[k]).wallet,
    ) && leaf_of(b.windex_v(), epoch, es[k].wallet) == (es[k].index, es[k].amount) by {
        let al = a.windex_v().len() as int;
        assert(b.windex_v()[al + k] == new_w[k]);
        assert(has_leaf(b.windex_v(), epoch, es[k].wallet));
        let c = choose|c: int|
            0 <= c < b.windex_v().len() && (#[trigger] b.windex_v()[c]).0.0 == epoch
                && b.windex_v()[c].0.1 == es[k].wallet;
        if c != al + k {
            let lo = if c < al + k {
                c
            } else {
                al + k
            };
            let hi = if c < al + k {
                al + k
            } else {
                c
            };
            assert((b.windex_v()[lo]).0.0 != (b.windex_v()[hi]).0.0 || b.windex_v()[lo].0.1
                != b.windex_v()[hi].0.1);
        }
    }
    // The new epoch's snapshot is intact.
    let e0 = b.epoch_layer(epoch, 0);
    assert forall|l: u32| (l as nat) < ls implies #[trigger] has_offset(
        b.offsets_v(),
        epoch,
        l,
    ) by {
        let al = a.offsets_v().len() as int;
        assert(b.offsets_v()[al + l] == new_offs[l as int]);
    }
    assert forall|l: u32| (l as nat) < ls implies #[trigger] offset_of(b.offsets_v(), epoch, l)
        == new_offs[l as int].1 by {
        let al = a.offsets_v().len() as int;
        assert(b.offsets_v()[al + l] == new_offs[l as int]);
        assert(has_offset(b.offsets_v(), epoch, l));
        let c = choose|c: int|
            0 <= c < b.offsets_v().len() && (#[trigger] b.offsets_v()[c]).0.epoch == epoch
                && b.offsets_v()[c].0.layer_id == l;
        if c != al + l {
            let lo = if c < al + l {
                c
            } else {
                al + l
            };
            let hi = if c < al + l {
                al + l
            } else {
                c
            };
            assert((b.offsets_v()[lo]).0.epoch != (b.offsets_v()[hi]).0.epoch || b.offsets_v()[
                lo].0.layer_id != b.offsets_v()[hi].0.layer_id);
        }
    }
    assert(0 < ls);
    assert(has_offset(b.offsets_v(), epoch, 0));
    assert(offset_of(b.offsets_v(), epoch, 0) == new_offs[0].1);
    assert(e0 == layer_at(lv, 0));
    assert forall|l: u32| (l as nat) < ls implies #[trigger] b.epoch_layer(epoch, l) == layer_at(
        e0,
        l as nat,
    ) by {
        assert(has_offset(b.offsets_v(), epoch, l));
        assert(offset_of(b.offsets_v(), epoch, l) == new_offs[l as int].1);
        assert(b.epoch_layer(epoch, l) == layer_at(lv, l as nat));
    }
    assert(b.epoch_wf(mv)) by {
        assert(1 <= mv.leaves_count <= u32::MAX as u64);
        assert(merkle_root(b.epoch_layer(mv.epoch, 0)) == mv.root);
        assert forall|i: int|
            0 <= i < b.windex_v().len() && (#[trigger] b.windex_v()[i]).0.0 == mv.epoch implies {
            let w = b.windex_v()[i].0.1;
            let idx = b.windex_v()[i].1.0;
            let amt = b.windex_v()[i].1.1;
            &&& (idx as int) < mv.leaves_count
            &&& wallet_is_valid(w)
            &&& b.epoch_layer(mv.epoch, 0)[idx as int] == leaf_hash(
                mv.epoch,
                idx,
                wallet_bytes(w),
                amt,
            )
        } by {
            let al = a.windex_v().len() as int;
            assert(i >= al);
            let t = i - al;
            assert(b.windex_v()[i] == new_w[t]);
            assert(entry_qualifies(a.users_v(), es[t], epoch));
            assert(user_wf(user_of(a.users_v(), es[t].wallet)));
            assert(b.epoch_layer(mv.epoch, 0)[t] == lv[t]);
            assert(lv[t] == leaf_hash(es[t].epoch, es[t].index, wallet_bytes(es[t].wallet), es[
                t].amount));
        }
        assert forall|l: u32|
            (l as nat) < ls implies {
            let off = #[trigger] offset_of(b.offsets_v(), epoch, l);
            off.start as int + off.len as int <= b.layers_v().len() && off.len as nat
                == layer_size(mv.leaves_count as nat, l as nat)
        } by {
            assert(has_offset(b.offsets_v(), epoch, l));
            assert(offset_of(b.offsets_v(), epoch, l) == new_offs[l as int].1);
        }
    }
    // Older epochs stay intact.
    assert forall|i: int| 0 <= i < b.metas_v().len() implies b.epoch_wf(
        #[trigger] b.metas_v()[i],
    ) by {
        if b.metas_v()[i] != mv {
            let j = choose|j: int|
                0 <= j < a.metas_v().len() && (#[trigger] a.metas_v()[j]) == b.metas_v()[i];
            assert(a.epoch_wf(a.metas_v()[j]));
            assert(a.metas_v()[j].epoch != epoch) by {
                assert(has_meta(a.metas_v(), a.metas_v()[j].epoch));
            }
            lemma_epoch_wf_extend(a, b, a.metas_v()[j], epoch, flat, new_offs, new_w);
        }
    }
    // Every index record's epoch has metadata, and layer ids are in range.
    assert forall|i: int|
        0 <= i < b.offsets_v().len() implies has_meta(
        b.metas_v(),
        (#[trigger] b.offsets_v()[i]).0.epoch,
    ) && ((b.offsets_v()[i].0.layer_id as nat) < num_layers(
        meta_of(b.metas_v(), b.offsets_v()[i].0.epoch).leaves_count as nat,
    )) by {
        let al = a.offsets_v().len() as int;
        if i < al {
            assert(b.offsets_v()[i] == a.offsets_v()[i]);
            let e = a.offsets_v()[i].0.epoch;
            assert(has_meta(a.metas_v(), e));
            assert(e != epoch);
            assert(has_meta(b.metas_v(), e) == has_meta(a.metas_v(), e));
            assert(meta_of(b.metas_v(), e) == meta_of(a.metas_v(), e));
        } else {
            assert(b.offsets_v()[i] == new_offs[i - al]);
            assert(meta_of(b.metas_v(), epoch) == mv);
        }
    }
    assert forall|i: int|
        0 <= i < b.windex_v().len() implies has_meta(
        b.metas_v(),
        (#[trigger] b.windex_v()[i]).0.0,
    ) by {
        let al = a.windex_v().len() as int;
        if i < al {
            assert(b.windex_v()[i] == a.windex_v()[i]);
            assert(has_meta(a.metas_v(), a.windex_v()[i].0.0));
            assert(a.windex_v()[i].0.0 != epoch);
        } else {
            assert(b.windex_v()[i] == new_w[i - al]);
        }
    }
    assert forall|i: int|
        0 <= i < b.layers_v().len() implies (#[trigger] b.layers_v()[i]).len() == 32 by {
        if i < a.layers_v().len() {
            assert(b.layers_v()[i] == a.layers_v()[i]);
        } else {
            assert(b.layers_v()[i] == flat[i - a.layers_v().len()]);
        }
    }
}

impl RewardEngine {
    /// Builds the epoch's distribution snapshot: freezes one claim entry per
    /// qualifying wallet (positive sum over Completed tasks), sorted ascending
    /// by wallet; hashes the entries into a Merkle tree stored layer by layer
    /// in the flat hash store; records each wallet's leaf position; moves the
    /// frozen Completed tasks to RewardPrepared; and publishes the write-once
    /// snapshot metadata last. Admin-only (PermissionDenied otherwise); fails
    /// AlreadyExists where the epoch was already built and Empty where no
    /// wallet qualifies; no failure leaves a side effect.
    #[verifier::loop_isolation(false)]
    #[verifier::rlimit(100)]
    pub fn build_epoch_snapshot(&mut self, epoch: u64, is_admin: bool, now: u64) -> (r: Result<
        MerkleSnapshotMeta,
        RewardError,
    >)
        requires
            old(self).wf(),
            forall|i: int|
                0 <= i < old(self).users_v().len() ==> unclaimed_sum(
                    (#[trigger] old(self).users_v()[i]).tasks,
                ) + completed_sum(old(self).users_v()[i].tasks) <= u64::MAX,
            old(self).users_v().len() < u32::MAX,
        ensures
            final(self).wf(),
            final(self).contract_v() == old(self).contract_v(),
            final(self).payments_v() == old(self).payments_v(),
            engine_steps_ok(old(self).users_v(), final(self).users_v()),
            (match r {
                Ok(m) => {
                    &&& is_admin
                    &&& !has_meta(old(self).metas_v(), epoch)
                    &&& m@.epoch == epoch
                    &&& m@.locked
                    &&& m@.created_at == now
                    &&& 1 <= m@.leaves_count
                    &&& m@.leaves_count == qualifying_count(old(self).users_v())
                    &&& final(self).metas_v().len() == old(self).metas_v().len() + 1
                    &&& metas_sorted(final(self).metas_v())
                    &&& has_meta(final(self).metas_v(), epoch)
                    &&& meta_of(final(self).metas_v(), epoch) == m@
                    &&& (forall|i: int|
                        0 <= i < final(self).metas_v().len() ==> ((
                        #[trigger] final(self).metas_v()[i]) == m@ || exists|j: int|
                            0 <= j < old(self).metas_v().len() && (#[trigger] old(
                                self,
                            ).metas_v()[j]) == final(self).metas_v()[i]))
                    &&& (forall|e2: u64|
                        e2 != epoch ==> (#[trigger] has_meta(final(self).metas_v(), e2)
                            == has_meta(old(self).metas_v(), e2) && (has_meta(
                            old(self).metas_v(),
                            e2,
                        ) ==> meta_of(final(self).metas_v(), e2) == meta_of(
                            old(self).metas_v(),
                            e2,
                        ))))
                    &&& old(self).layers_v().len() <= final(self).layers_v().len()
                    &&& final(self).layers_v().subrange(
                        0,
                        old(self).layers_v().len() as int,
                    ) == old(self).layers_v()
                    &&& old(self).offsets_v().len() <= final(self).offsets_v().len()
                    &&& final(self).offsets_v().subrange(
                        0,
                        old(self).offsets_v().len() as int,
                    ) == old(self).offsets_v()
                    &&& (exists|es: Seq<ClaimEntryView>|
                        {
                            &&& #[trigger] entries_sorted(es)
                            &&& es.len() == m@.leaves_count
                            &&& (forall|k: int|
                                0 <= k < es.len() ==> entry_qualifies(
                                    old(self).users_v(),
                                    #[trigger] es[k],
                                    epoch,
                                ) && es[k].index == k)
                            &&& (forall|i: int|
                                0 <= i < old(self).users_v().len() && completed_sum(
                                    (#[trigger] old(self).users_v()[i]).tasks,
                                ) > 0 ==> entry_for(es, old(self).users_v()[i].wallet))
                            &&& m@.root == entries_root(es)
                            &&& (forall|k: int|
                                0 <= k < es.len() ==> has_leaf(
                                    final(self).windex_v(),
                                    epoch,
                                    (#[trigger] es[k]).wallet,
                                ) && leaf_of(final(self).windex_v(), epoch, es[k].wallet) == (
                                es[k].index,
                                es[k].amount,
                                ))
                            &&& final(self).windex_v() == old(self).windex_v() + Seq::new(
                                es.len(),
                                |k: int| (((epoch, es[k].wallet), (es[k].index, es[k].amount))),
                            )
                        })
                    &&& final(self).users_v().len() == old(self).users_v().len()
                    &&& (forall|w: Seq<char>|
                        #[trigger] has_user(old(self).users_v(), w) ==> has_user(
                            final(self).users_v(),
                            w,
                        ) && user_of(final(self).users_v(), w) == (if completed_sum(
                            user_of(old(self).users_v(), w).tasks,
                        ) > 0 {
                            prepared_user(user_of(old(self).users_v(), w))
                        } else {
                            user_of(old(self).users_v(), w)
                        }))
                    &&& (forall|e: u64, w: Seq<char>|
                        e != epoch ==> (#[trigger] has_leaf(final(self).windex_v(), e, w)
                            == has_leaf(old(self).windex_v(), e, w) && (has_leaf(
                            old(self).windex_v(),
                            e,
                            w,
                        ) ==> leaf_of(final(self).windex_v(), e, w) == leaf_of(
                            old(self).windex_v(),
                            e,
                            w,
                        ))))
                },
                Err(e) => {
                    &&& RewardEngine::same_state(*old(self), *final(self))
                    &&& (e == RewardError::PermissionDenied || e == RewardError::AlreadyExists || e
                        == RewardError::Empty)
                    &&& ((e == RewardError::PermissionDenied) <==> !is_admin)
                    &&& ((e == RewardError::AlreadyExists) <==> (is_admin && has_meta(
                        old(self).metas_v(),
                        epoch,
                    )))
                    &&& ((e == RewardError::Empty) <==> (is_admin && !has_meta(
                        old(self).metas_v(),
                        epoch,
                    ) && (forall|i: int|
                        0 <= i < old(self).users_v().len() ==> completed_sum(
                            (#[trigger] old(self).users_v()[i]).tasks,
                        ) <= 0)))
                },
            }),
    {
        if !is_admin {
            return Err(RewardError::PermissionDenied);
        }
        match self.find_meta_index(epoch) {
            Some(_) => {
                return Err(RewardError::AlreadyExists);
            },
            None => {},
        }
        let sorted = self.collect_sorted_entries(epoch);
        let m_entries = sorted.len();
        if m_entries == 0 {
            proof {
                assert forall|i: int| 0 <= i < old(self).users_v().len() implies completed_sum(
                    (#[trigger] old(self).users_v()[i]).tasks,
                ) <= 0 by {
                    if completed_sum(old(self).users_v()[i].tasks) > 0 {
                        assert(entry_for(
                            sorted@.map_values(|x: ClaimEntry| x@),
                            old(self).users_v()[i].wallet,
                        ));
                    }
                }
            }
            return Err(RewardError::Empty);
        }
        // Assign each entry its sorted position as its leaf index.
        let mut entries: Vec<ClaimEntry> = Vec::new();
        let mut k: usize = 0;
        while k < m_entries
            invariant
                k <= m_entries,
                m_entries == sorted@.len(),
                entries@.len() == k,
                forall|j: int|
                    0 <= j < k ==> (#[trigger] entries@[j])@ == (ClaimEntryView {
                        epoch,
                        index: j as u64,
                        wallet: sorted@[j]@.wallet,
                        amount: sorted@[j]@.amount,
                    }),
            decreases m_entries - k,
        {
            entries.push(
                ClaimEntry {
                    epoch,
                    index: k as u64,
                    wallet: sorted[k].wallet.clone(),
                    amount: sorted[k].amount,
                },
            );
            k = k + 1;
        }
        let ghost es: Seq<ClaimEntryView> = entries@.map_values(|x: ClaimEntry| x@);
        proof {
            assert forall|i2: int, j2: int| 0 <= i2 < j2 < es.len() implies chars_lt(
                (#[trigger] es[i2]).wallet,
                (#[trigger] es[j2]).wallet,
            ) by {
                assert(sorted@.map_values(|x: ClaimEntry| x@)[i2].wallet == es[i2].wallet);
                assert(sorted@.map_values(|x: ClaimEntry| x@)[j2].wallet == es[j2].wallet);
            }
            assert forall|k2: int| 0 <= k2 < es.len() implies entry_qualifies(
                old(self).users_v(),
                #[trigger] es[k2],
                epoch,
            ) && es[k2].index == k2 by {
                assert(entry_qualifies(old(self).users_v(), sorted@[k2]@, epoch));
            }
            assert forall|i2: int|
                0 <= i2 < old(self).users_v().len() && completed_sum(
                    (#[trigger] old(self).users_v()[i2]).tasks,
                ) > 0 implies entry_for(es, old(self).users_v()[i2].wallet) by {
                let sm = sorted@.map_values(|x: ClaimEntry| x@);
                assert(entry_for(sm, old(self).users_v()[i2].wallet));
                let k0 = choose|k0: int|
                    0 <= k0 < sm.len() && (#[trigger] sm[k0]).wallet
                        == old(self).users_v()[i2].wallet;
                assert(es[k0].wallet == old(self).users_v()[i2].wallet);
            }
        }
        // Hash the leaves, in sorted order.
        let mut leaves: Vec<Vec<u8>> = Vec::new();
        let mut k: usize = 0;
        while k < m_entries
            invariant
                k <= m_entries,
                m_entries == entries@.len(),
                es == entries@.map_values(|x: ClaimEntry| x@),
                leaves@.len() == k,
                forall|j: int|
                    0 <= j < k ==> (#[trigger] leaves@[j])@ == leaves_of_entries(es)[j],
                forall|j: int| 0 <= j < k ==> (#[trigger] leaves@[j])@.len() == 32,
            decreases m_entries - k,
        {
            proof {
                assert(entry_qualifies(old(self).users_v(), es[k as int], epoch));
                assert(user_wf(user_of(old(self).users_v(), es[k as int].wallet)));
            }
            let wallet_bytes_vec = match decode_wallet_base58(entries[k].wallet.as_str()) {
                Ok(b) => b,
                Err(_) => {
                    proof {
                        assert(false);
                    }
                    return Err(RewardError::InvalidAddress);
                },
            };
            let h = compute_leaf_hash(
                epoch,
                entries[k].index,
                wallet_bytes_vec.as_slice(),
                entries[k].amount,
            );
            leaves.push(h);
            k = k + 1;
        }
        let ghost lv: Seq<Seq<u8>> = hashes_view(leaves@);
        proof {
            assert(lv =~= leaves_of_entries(es));
            assert(1 <= lv.len() < usize::MAX);
        }
        // Grow every layer of the tree.
        let all_layers = build_layers(leaves);
        let lcount = all_layers.len();
        let top = &all_layers[lcount - 1];
        let root = crate::types::clone_bytes(&top[0]);
        proof {
            lemma_num_layers_le(lv.len());
            assert(root@ == merkle_root(lv));
            assert(root@.len() == 32) by {
                if lcount == 1 {
                    assert(hashes_view(all_layers@[0]@) == layer_at(lv, 0));
                    assert(all_layers@[0]@[0]@ == lv[0]);
                } else {
                    assert(all_layers@[lcount - 1]@[0]@.len() == 32);
                }
            }
        }
        // Persist every layer contiguously, recording each layer's offset.
        let ghost o_layers = self.layers_v();
        let ghost o_offsets = self.offsets_v();
        let ghost o_windex = self.windex_v();
        let ghost o_metas = self.metas_v();
        let ghost o_users = self.users_v();
        let ghost mut flat: Seq<Seq<u8>> = Seq::empty();
        let ghost mut new_offs: Seq<(EpochLayerKey, LayerOffset)> = Seq::empty();
        let mut l: usize = 0;
        proof {
            assert(o_layers + flat =~= o_layers);
            assert(o_offsets + new_offs =~= o_offsets);
        }
        while l < lcount
            invariant
                l <= lcount,
                lcount == all_layers@.len(),
                lcount == num_layers(lv.len()),
                lv.len() == m_entries,
                1 <= m_entries < u32::MAX,
                forall|t: int|
                    0 <= t < lcount ==> hashes_view(#[trigger] all_layers@[t]@) == layer_at(
                        lv,
                        t as nat,
                    ),
                self.layers_v() == o_layers + flat,
                self.offsets_v() == o_offsets + new_offs,
                new_offs.len() == l,
                forall|i2: int|
                    0 <= i2 < flat.len() ==> (#[trigger] flat[i2]).len() == 32,
                forall|t: int|
                    0 <= t < l ==> (#[trigger] new_offs[t]).0 == (EpochLayerKey {
                        epoch,
                        layer_id: t as u32,
                    }),
                forall|t: int|
                    0 <= t < l ==> {
                        let off = (#[trigger] new_offs[t]).1;
                        &&& off.start as int + off.len as int <= self.layers_v().len()
                        &&& off.len == all_layers@[t]@.len()
                        &&& self.layers_v().subrange(
                            off.start as int,
                            off.start as int + off.len as int,
                        ) == hashes_view(all_layers@[t]@)
                    },
                self.contract_v() == old(self).contract_v(),
                self.users_v() == o_users,
                self.payments_v() == old(self).payments_v(),
                self.metas_v() == o_metas,
                self.windex_v() == o_windex,
            decreases lcount - l,
        {
            let ghost pre_layers = self.layers_v();
            let ghost pre_offs = self.offsets_v();
            proof {
                lemma_layer_at_size(lv, l as nat);
                lemma_layer_size_le(lv.len(), l as nat);
                assert(hashes_view(all_layers@[l as int]@) == layer_at(lv, l as nat));
                assert(all_layers@[l as int]@.len() == layer_size(lv.len(), l as nat));
            }
            let start = self.persist_layer(epoch, l as u32, &all_layers[l]);
            proof {
                let seg = hashes_view(all_layers@[l as int]@);
                let rec = (
                    EpochLayerKey { epoch, layer_id: l as u32 },
                    LayerOffset { start, len: all_layers@[l as int]@.len() as u32 },
                );
                flat = flat + seg;
                new_offs = new_offs.push(rec);
                assert(self.layers_v() =~= o_layers + flat);
                assert(self.offsets_v() =~= o_offsets + new_offs);
                assert forall|i2: int| 0 <= i2 < flat.len() implies (#[trigger] flat[i2]).len()
                    == 32 by {
                    if i2 >= flat.len() - seg.len() {
                        if l == 0 {
                            assert(seg[i2 - (flat.len() - seg.len())] == lv[i2 - (flat.len()
                                - seg.len())]);
                        }
                    }
                }
                assert forall|t: int| 0 <= t < l + 1 implies {
                    let off = (#[trigger] new_offs[t]).1;
                    &&& off.start as int + off.len as int <= self.layers_v().len()
                    &&& off.len == all_layers@[t]@.len()
                    &&& self.layers_v().subrange(
                        off.start as int,
                        off.start as int + off.len as int,
                    ) == hashes_view(all_layers@[t]@)
                } by {
                    let off = new_offs[t].1;
                    if t < l {
                        assert(self.layers_v().subrange(
                            off.start as int,
                            off.start as int + off.len as int,
                        ) =~= pre_layers.subrange(
                            off.start as int,
                            off.start as int + off.len as int,
                        ));
                    } else {
                        assert(off.start == pre_layers.len());
                        assert(self.layers_v().subrange(
                            off.start as int,
                            off.start as int + off.len as int,
                        ) =~= hashes_view(all_layers@[t]@));
                    }
                }
            }
            l = l + 1;
        }
        // Record each wallet's (index, amount) leaf position.
        let ghost mut new_w: Seq<WalletLeaf> = Seq::empty();
        proof {
            assert(o_windex + new_w =~= o_windex);
        }
        let mut k: usize = 0;
        while k < m_entries
            invariant
                k <= m_entries,
                m_entries == entries@.len(),
                es == entries@.map_values(|x: ClaimEntry| x@),
                self.windex_v() == o_windex + new_w,
                new_w.len() == k,
                forall|t: int|
                    0 <= t < k ==> (#[trigger] new_w[t]) == (((epoch, es[t].wallet), (es[t].index, es[t].amount))),
                self.contract_v() == old(self).contract_v(),
                self.users_v() == o_users,
                self.payments_v() == old(self).payments_v(),
                self.metas_v() == o_metas,
                self.layers_v() == o_layers + flat,
                self.offsets_v() == o_offsets + new_offs,
            decreases m_entries - k,
        {
            let ghost prevw = self.windex_v();
            self.wallet_index.push(
                (
                    EpochWalletKey { epoch, wallet: entries[k].wallet.clone() },
                    (entries[k].index, entries[k].amount),
                ),
            );
            proof {
                assert(self.windex_v() =~= prevw.push(
                    (((epoch, es[k as int].wallet), (es[k as int].index, es[k as int].amount))),
                ));
                new_w = new_w.push(
                    (((epoch, es[k as int].wallet), (es[k as int].index, es[k as int].amount))),
                );
                assert(self.windex_v() =~= o_windex + new_w);
            }
            k = k + 1;
        }
        // Move the frozen Completed tasks of every included wallet to
        // RewardPrepared, recomputing each cached total.
        let mut k: usize = 0;
        while k < m_entries
            invariant
                k <= m_entries,
                m_entries == entries@.len(),
                es == entries@.map_values(|x: ClaimEntry| x@),
                self.users_v().len() == o_users.len(),
                forall|j: int|
                    0 <= j < o_users.len() ==> (#[trigger] self.users_v()[j]).wallet
                        == o_users[j].wallet,
                forall|j: int|
                    0 <= j < o_users.len() ==> (#[trigger] self.users_v()[j]) == (if (exists|
                        t: int,
                    | 0 <= t < k && (#[trigger] es[t]).wallet == o_users[j].wallet) {
                        prepared_user(o_users[j])
                    } else {
                        o_users[j]
                    }),
                self.contract_v() == old(self).contract_v(),
                self.payments_v() == old(self).payments_v(),
                self.metas_v() == o_metas,
                self.layers_v() == o_layers + flat,
                self.offsets_v() == o_offsets + new_offs,
                self.windex_v() == o_windex + new_w,
            decreases m_entries - k,
        {
            let ghost w = es[k as int].wallet;
            proof {
                assert(entry_qualifies(old(self).users_v(), es[k as int], epoch));
                assert(has_user(o_users, w));
                let j0 = user_index(o_users, w);
                assert(0 <= j0 < o_users.len() && o_users[j0].wallet == w);
                assert(has_user(self.users_v(), w)) by {
                    assert(self.users_v()[j0].wallet == w);
                }
            }
            let wi = match self.find_user_index(entries[k].wallet.as_str()) {
                Some(x) => x,
                None => {
                    proof {
                        assert(false);
                    }
                    return Err(RewardError::NotFound);
                },
            };
            let ghost cur = self.users_v()[wi as int];
            proof {
                // This wallet was not yet processed: the entries are strictly
                // sorted, so its wallet differs from every earlier entry's.
                assert forall|t: int| 0 <= t < k implies (#[trigger] es[t]).wallet != w by {
                    lemma_chars_lt_asymmetric(es[t].wallet, es[k as int].wallet);
                    if es[t].wallet == w {
                        assert(chars_lt(es[t].wallet, es[k as int].wallet));
                        assert(chars_lt(es[k as int].wallet, es[t].wallet));
                    }
                }
                assert(cur == o_users[wi as int]);
                assert(user_wf(o_users[wi as int]));
                // The engine-level bound on each wallet's sums.
                assert(unclaimed_sum(cur.tasks) + completed_sum(cur.tasks) <= u64::MAX);
            }
            let nt = retag_tasks(
                &self.users[wi].tasks,
                TaskStatus::Completed,
                TaskStatus::RewardPrepared,
            );
            let ghost nts = nt@.map_values(|t: UserTaskDetail| t@);
            proof {
                assert(nts =~= retag_all(cur.tasks, TaskStatus::Completed,
                    TaskStatus::RewardPrepared));
                assert forall|j: int| 0 <= j < cur.tasks.len() implies #[trigger] nts[j] == (
                if cur.tasks[j].status == TaskStatus::Completed {
                    UserTaskDetailView {
                        taskid: cur.tasks[j].taskid,
                        status: TaskStatus::RewardPrepared,
                        completed_at: cur.tasks[j].completed_at,
                        reward_amount: cur.tasks[j].reward_amount,
                        evidence: cur.tasks[j].evidence,
                    }
                } else {
                    cur.tasks[j]
                }) by {
                    assert(nts[j] == retag(cur.tasks[j], TaskStatus::Completed,
                        TaskStatus::RewardPrepared));
                }
                crate::types::lemma_prepare_sums(cur.tasks, nts);
                assert(unclaimed_sum(nts) <= u64::MAX);
            }
            let total = compute_total_unclaimed(&nt);
            let nu = UserTaskState {
                wallet: self.users[wi].wallet.clone(),
                tasks: nt,
                total_unclaimed: total,
            };
            let ghost pre_users_loop = self.users_v();
            self.users.remove(wi);
            self.users.insert(wi, nu);
            proof {
                assert(self.users_v() =~= pre_users_loop.update(wi as int, nu@));
                assert(nu@ == prepared_user(o_users[wi as int])) by {
                    assert(nu@.tasks == prepared_user(o_users[wi as int]).tasks);
                    assert(nu@.total_unclaimed == prepared_user(o_users[wi as int]).total_unclaimed);
                    assert(nu@.wallet == prepared_user(o_users[wi as int]).wallet);
                }
                assert forall|j: int| 0 <= j < o_users.len() implies (#[trigger] self.users_v()[j])
                    == (if (exists|t: int|
                    0 <= t < k + 1 && (#[trigger] es[t]).wallet == o_users[j].wallet) {
                    prepared_user(o_users[j])
                } else {
                    o_users[j]
                }) by {
                    if j == wi as int {
                        assert(es[k as int].wallet == o_users[j].wallet);
                    } else {
                        assert(self.users_v()[j] == pre_users_loop[j]);
                        if exists|t: int|
                            0 <= t < k + 1 && (#[trigger] es[t]).wallet == o_users[j].wallet {
                            let t0 = choose|t0: int|
                                0 <= t0 < k + 1 && (#[trigger] es[t0]).wallet
                                    == o_users[j].wallet;
                            if t0 == k as int {
                                assert(o_users[j].wallet == w);
                                let j1 = user_index(o_users, w);
                                if j1 != j {
                                    assert(o_users[j1].wallet != o_users[j].wallet);
                                }
                                assert(j == wi as int);
                            }
                        }
                    }
                }
            }
            k = k + 1;
        }
        // Publish the snapshot metadata: the epoch is now frozen.
        let meta = MerkleSnapshotMeta {
            epoch,
            root,
            leaves_count: m_entries as u64,
            locked: true,
            created_at: now,
        };
        let ghost mv = meta@;
        let mcount = self.epoch_meta.len();
        let mut mpos: usize = 0;
        while mpos < mcount
            invariant
                mpos <= mcount,
                mcount == self.metas_v().len(),
                self.metas_v() == o_metas,
                !has_meta(o_metas, epoch),
                forall|j: int| 0 <= j < mpos ==> (#[trigger] o_metas[j]).epoch < epoch,
            decreases mcount - mpos,
        {
            if epoch < self.epoch_meta[mpos].epoch {
                break ;
            }
            proof {
                assert(o_metas[mpos as int].epoch != epoch) by {
                    if o_metas[mpos as int].epoch == epoch {
                        assert(has_meta(o_metas, epoch));
                    }
                }
            }
            mpos = mpos + 1;
        }
        proof {
            assert(!has_meta(o_metas, epoch));
            lemma_metas_insert(o_metas, mv, mpos as int);
        }
        let out = meta.clone();
        self.epoch_meta.insert(mpos, meta);
        proof {
            assert(self.metas_v() =~= o_metas.insert(mpos as int, mv));
        }
        proof {
            assert forall|t: int| 0 <= t < new_offs.len() implies {
                let off = (#[trigger] new_offs[t]).1;
                &&& off.start as int + off.len as int <= self.layers_v().len()
                &&& off.len as nat == layer_size(lv.len(), t as nat)
                &&& self.layers_v().subrange(
                    off.start as int,
                    off.start as int + off.len as int,
                ) == layer_at(lv, t as nat)
            } by {
                lemma_layer_at_size(lv, t as nat);
                assert(new_offs[t].1.len == all_layers@[t]@.len());
                assert(hashes_view(all_layers@[t]@) == layer_at(lv, t as nat));
            }
            assert(o_metas == old(self).metas_v());
            assert(self.metas_v() == o_metas.insert(mpos as int, mv));
            assert forall|e2: u64| e2 != epoch implies (#[trigger] has_meta(self.metas_v(), e2)
                == has_meta(old(self).metas_v(), e2) && (has_meta(old(self).metas_v(), e2)
                ==> meta_of(self.metas_v(), e2) == meta_of(old(self).metas_v(), e2))) by {
                assert(has_meta(o_metas.insert(mpos as int, mv), e2) == has_meta(o_metas, e2));
            }
            assert forall|i2: int| 0 <= i2 < self.metas_v().len() implies ((
            #[trigger] self.metas_v()[i2]) == mv || exists|j2: int|
                0 <= j2 < old(self).metas_v().len() && old(self).metas_v()[j2]
                    == self.metas_v()[i2]) by {
                assert(o_metas.insert(mpos as int, mv)[i2] == self.metas_v()[i2]);
                assert((o_metas.insert(mpos as int, mv)[i2] == mv || exists|j2: int|
                    0 <= j2 < o_metas.len() && o_metas[j2] == o_metas.insert(
                        mpos as int,
                        mv,
                    )[i2]));
            }
            assert(has_meta(self.metas_v(), epoch) && meta_of(self.metas_v(), epoch) == mv) by {
                assert(has_meta(o_metas.insert(mpos as int, mv), mv.epoch));
                assert(meta_of(o_metas.insert(mpos as int, mv), mv.epoch) == mv);
            }
            lemma_build_snapshot_wf(
                *old(self),
                *self,
                epoch,
                es,
                lv,
                flat,
                new_offs,
                new_w,
                mv,
            );
            assert(entries_sorted(es));
            assert(es.len() == out@.leaves_count);
            assert(out@ == mv);
            assert(out@.root == entries_root(es));
            assert(forall|k: int|
                0 <= k < es.len() ==> has_leaf(self.windex_v(), epoch, (#[trigger] es[k]).wallet)
                    && leaf_of(self.windex_v(), epoch, es[k].wallet) == (es[k].index, es[k].amount));
            assert(forall|k: int|
                0 <= k < es.len() ==> entry_qualifies(old(self).users_v(), #[trigger] es[k], epoch)
                    && es[k].index == k);
            assert(forall|i: int|
                0 <= i < old(self).users_v().len() && completed_sum(
                    (#[trigger] old(self).users_v()[i]).tasks,
                ) > 0 ==> entry_for(es, old(self).users_v()[i].wallet));
            assert(new_w =~= Seq::new(
                es.len(),
                |k: int| (((epoch, es[k].wallet), (es[k].index, es[k].amount))),
            ));
            assert(self.windex_v() == old(self).windex_v() + Seq::new(
                es.len(),
                |k: int| (((epoch, es[k].wallet), (es[k].index, es[k].amount))),
            ));
            assert(self.layers_v().subrange(0, old(self).layers_v().len() as int)
                =~= old(self).layers_v());
            assert(self.offsets_v().subrange(0, old(self).offsets_v().len() as int)
                =~= old(self).offsets_v());
            lemma_entries_count(old(self).users_v(), epoch, es);
        }
        Ok(out)
    }
}


use crate::merkle::fold_proof;
use crate::merkle::proof_path;
use crate::merkle::sibling_in;
use crate::merkle::next_layer;
use crate::merkle::lemma_layer_size_profile;
use crate::merkle::lemma_proof_recombines_to_root;
use crate::merkle::lemma_proof_path_len;
use crate::types::ClaimTicket;

/// Whether the wallet currently holds any task in TicketIssued or Claimed
/// status: the global single-outstanding-ticket gate.
pub open spec fn has_blocking_task(us: Seq<UserTaskStateView>, w: Seq<char>) -> bool {
    has_user(us, w) && exists|i: int|
        0 <= i < user_of(us, w).tasks.len() && ((#[trigger] user_of(us, w).tasks[i]).status
            == TaskStatus::TicketIssued || user_of(us, w).tasks[i].status == TaskStatus::Claimed)
}

impl RewardEngine {
    /// Derives the inclusion proof of one leaf of a built epoch: for each
    /// layer below the root, the sibling hash of the current node (the node's
    /// own hash where the pair neighbour lies past the end of an odd layer),
    /// bottom up. The proof holds one hash per layer below the root and never
    /// includes the root itself.
    #[verifier::loop_isolation(false)]
    #[verifier::rlimit(100)]
    pub fn generate_merkle_proof(&self, epoch: u64, leaf_index: u64) -> (r: Result<
        Vec<Vec<u8>>,
        RewardError,
    >)
        requires
            self.wf(),
            has_meta(self.metas_v(), epoch),
            (leaf_index as int) < meta_of(self.metas_v(), epoch).leaves_count,
        ensures
            (match r {
                Ok(path) => hashes_view(path@) == proof_path(
                    self.epoch_layer(epoch, 0),
                    leaf_index as int,
                ),
                Err(_) => false,
            }),
    {
        let ghost m = meta_of(self.metas_v(), epoch);
        let ghost n = m.leaves_count as nat;
        let ghost ls = num_layers(n);
        let ghost lv0 = self.epoch_layer(epoch, 0);
        proof {
            let mi = meta_index(self.metas_v(), epoch);
            assert(self.metas_v()[mi] == m);
            assert(self.epoch_wf(m));
            assert(has_offset(self.offsets_v(), epoch, 0));
            assert(self.epoch_layer(epoch, 0) == layer_at(lv0, 0));
            assert(lv0.len() == layer_size(n, 0));
            lemma_num_layers_le(n);
            assert(ls <= u32::MAX);
        }
        // The top layer's id: the largest stored for this epoch.
        let cnt = self.layer_offsets.len();
        let mut max_layer: u32 = 0;
        let mut i: usize = 0;
        while i < cnt
            invariant
                i <= cnt,
                cnt == self.offsets_v().len(),
                (max_layer as nat) < ls,
                forall|j: int|
                    0 <= j < i && (#[trigger] self.offsets_v()[j]).0.epoch == epoch
                        ==> self.offsets_v()[j].0.layer_id <= max_layer,
            decreases cnt - i,
        {
            let key = self.layer_offsets[i].0;
            if key.epoch == epoch && key.layer_id > max_layer {
                proof {
                    assert(has_meta(self.metas_v(), key.epoch));
                    assert(meta_of(self.metas_v(), key.epoch) == m);
                    assert((key.layer_id as nat) < ls);
                }
                max_layer = key.layer_id;
            }
            i = i + 1;
        }
        proof {
            assert(((ls - 1) as u32) as nat == ls - 1);
            assert(has_offset(self.offsets_v(), epoch, (ls - 1) as u32));
            let c = choose|c: int|
                0 <= c < self.offsets_v().len() && (#[trigger] self.offsets_v()[c]).0.epoch
                    == epoch && self.offsets_v()[c].0.layer_id == (ls - 1) as u32;
            assert(self.offsets_v()[c].0.layer_id <= max_layer);
            assert(max_layer as nat == ls - 1);
        }
        // Walk from the leaf to just below the root, collecting siblings.
        let mut path: Vec<Vec<u8>> = Vec::new();
        let mut cur: u64 = leaf_index;
        let mut l: u32 = 0;
        proof {
            assert(hashes_view(path@) =~= Seq::<Seq<u8>>::empty());
            assert(proof_path(lv0, leaf_index as int) =~= hashes_view(path@) + proof_path(
                layer_at(lv0, 0),
                leaf_index as int,
            ));
        }
        while l < max_layer
            invariant
                l <= max_layer,
                max_layer as nat == ls - 1,
                ls == num_layers(n),
                1 <= n <= u32::MAX,
                lv0 == self.epoch_layer(epoch, 0),
                lv0.len() == n,
                m == meta_of(self.metas_v(), epoch),
                self.epoch_wf(m),
                m.epoch == epoch,
                n == m.leaves_count as nat,
                path@.len() == l,
                (cur as int) < layer_size(n, l as nat),
                proof_path(lv0, leaf_index as int) == hashes_view(path@) + proof_path(
                    layer_at(lv0, l as nat),
                    cur as int,
                ),
            decreases max_layer - l,
        {
            proof {
                lemma_layer_size_profile(n, l as nat);
                lemma_layer_size_le(n, l as nat);
                assert(layer_size(n, l as nat) >= 2);
                assert(has_offset(self.offsets_v(), epoch, l));
                assert(self.epoch_layer(epoch, l) == layer_at(lv0, l as nat));
            }
            let sib: u64 = if cur % 2 == 0 {
                cur + 1
            } else {
                cur - 1
            };
            let off = match self.find_offset(epoch, l) {
                Some(o) => o,
                None => {
                    proof {
                        assert(false);
                    }
                    return Err(RewardError::NotFound);
                },
            };
            let total_store = self.layers.len();
            proof {
                assert(off == offset_of(self.offsets_v(), epoch, l));
                assert(off.start as int + off.len as int <= self.layers_v().len());
                assert(off.len as nat == layer_size(n, l as nat));
                assert(self.layers_v().len() == total_store as int);
                assert((cur as int) < off.len as int);
            }
            let pos: u64 = if sib < off.len as u64 {
                off.start + sib
            } else {
                off.start + cur
            };
            proof {
                assert(pos < total_store as u64);
            }
            let h = crate::types::clone_bytes(&self.layers[pos as usize].0);
            proof {
                let layer = layer_at(lv0, l as nat);
                assert(self.epoch_layer(epoch, l) == layer);
                assert(layer.len() == off.len as int);
                assert(layer[(pos - off.start) as int] == self.layers_v()[pos as int]);
                assert(h@ == self.layers_v()[pos as int]);
                if cur % 2 == 0 {
                    assert(sib == cur + 1);
                } else {
                    assert(sib == cur - 1);
                }
                assert(h@ == sibling_in(layer, cur as int));
            }
            path.push(h);
            proof {
                let layer = layer_at(lv0, l as nat);
                assert(layer_at(lv0, (l + 1) as nat) == next_layer(layer));
                assert(proof_path(layer, cur as int) == seq![sibling_in(layer, cur as int)]
                    + proof_path(next_layer(layer), cur as int / 2));
                assert(hashes_view(path@) =~= hashes_view(path@.drop_last()).push(
                    path@.last()@,
                ));
                assert(proof_path(lv0, leaf_index as int) =~= hashes_view(path@) + proof_path(
                    layer_at(lv0, (l + 1) as nat),
                    (cur / 2) as int,
                ));
                assert(((cur / 2) as int) < layer_size(n, (l + 1) as nat));
            }
            cur = cur / 2;
            l = l + 1;
        }
        proof {
            lemma_layer_size_profile(n, (ls - 1) as nat);
            assert(layer_size(n, (ls - 1) as nat) == 1);
            assert(layer_at(lv0, (ls - 1) as nat).len() == 1) by {
                crate::merkle::lemma_layer_at_size(lv0, (ls - 1) as nat);
            }
            assert(proof_path(layer_at(lv0, (ls - 1) as nat), cur as int)
                =~= Seq::<Seq<u8>>::empty());
            assert(hashes_view(path@) =~= proof_path(lv0, leaf_index as int));
        }
        Ok(path)
    }

    /// Issues a claim ticket for the wallet's leaf in the highest epoch that
    /// holds one: the leaf data, the inclusion proof and the epoch root, for
    /// submission to the external settlement layer. Every RewardPrepared task
    /// of the wallet moves to TicketIssued. Fails InvalidAddress on a
    /// malformed wallet, NotFound where no epoch holds a leaf for the wallet,
    /// and InvalidState while the wallet already holds a ticket not yet
    /// reconciled (any task in TicketIssued or Claimed); no failure leaves a
    /// side effect.
    #[verifier::loop_isolation(false)]
    #[verifier::rlimit(100)]
    pub fn get_claim_ticket(&mut self, wallet: String) -> (r: Result<ClaimTicket, RewardError>)
        requires
            old(self).wf(),
        ensures
            final(self).wf(),
            RewardEngine::same_but_users(*old(self), *final(self)),
            engine_steps_ok(old(self).users_v(), final(self).users_v()),
            (match r {
                Ok(t) => {
                    &&& wallet_is_valid(wallet@)
                    &&& t.wallet@ == wallet@
                    &&& !has_blocking_task(old(self).users_v(), wallet@)
                    &&& has_leaf(old(self).windex_v(), t.epoch, wallet@)
                    &&& (forall|e: u64|
                        #[trigger] has_leaf(old(self).windex_v(), e, wallet@) ==> e <= t.epoch)
                    &&& (t.index, t.amount) == leaf_of(old(self).windex_v(), t.epoch, wallet@)
                    &&& has_meta(old(self).metas_v(), t.epoch)
                    &&& t.root@ == meta_of(old(self).metas_v(), t.epoch).root
                    &&& hashes_view(t.proof@) == proof_path(
                        old(self).epoch_layer(t.epoch, 0),
                        t.index as int,
                    )
                    &&& hashes_view(t.proof@).len() == num_layers(
                        meta_of(old(self).metas_v(), t.epoch).leaves_count as nat,
                    ) - 1
                    &&& fold_proof(
                        leaf_hash(t.epoch, t.index, wallet_bytes(wallet@), t.amount),
                        hashes_view(t.proof@),
                    ) == t.root@
                    &&& final(self).users_v().len() == old(self).users_v().len()
                    &&& (has_user(old(self).users_v(), wallet@) ==> has_user(
                        final(self).users_v(),
                        wallet@,
                    ) && user_of(final(self).users_v(), wallet@).tasks == retag_all(
                        user_of(old(self).users_v(), wallet@).tasks,
                        TaskStatus::RewardPrepared,
                        TaskStatus::TicketIssued,
                    ))
                    &&& (!has_user(old(self).users_v(), wallet@) ==> final(self).users_v() == old(
                        self,
                    ).users_v())
                    &&& (forall|w2: Seq<char>|
                        w2 != wallet@ ==> (#[trigger] has_user(final(self).users_v(), w2)
                            == has_user(old(self).users_v(), w2) && (has_user(
                            old(self).users_v(),
                            w2,
                        ) ==> user_of(final(self).users_v(), w2) == user_of(
                            old(self).users_v(),
                            w2,
                        ))))
                },
                Err(e) => {
                    &&& final(self).users_v() == old(self).users_v()
                    &&& (e == RewardError::InvalidAddress || e == RewardError::NotFound || e
                        == RewardError::InvalidState)
                    &&& ((e == RewardError::InvalidAddress) <==> !wallet_is_valid(wallet@))
                    &&& ((e == RewardError::NotFound) <==> (wallet_is_valid(wallet@)
                        && !has_any_leaf(old(self).windex_v(), wallet@)))
                    &&& ((e == RewardError::InvalidState) <==> (wallet_is_valid(wallet@)
                        && has_any_leaf(old(self).windex_v(), wallet@) && has_blocking_task(
                        old(self).users_v(),
                        wallet@,
                    )))
                },
            }),
    {
        match decode_wallet_base58(wallet.as_str()) {
            Ok(_) => {},
            Err(e) => {
                return Err(e);
            },
        }
        // The highest epoch holding a leaf for this wallet.
        let cnt = self.wallet_index.len();
        let mut found = false;
        let mut best_epoch: u64 = 0;
        let mut best_index: u64 = 0;
        let mut best_amount: u64 = 0;
        let mut i: usize = 0;
        while i < cnt
            invariant
                i <= cnt,
                cnt == self.windex_v().len(),
                !found ==> forall|j: int|
                    0 <= j < i ==> (#[trigger] self.windex_v()[j]).0.1 != wallet@,
                found ==> has_leaf(self.windex_v(), best_epoch, wallet@) && (best_index,
                best_amount) == leaf_of(self.windex_v(), best_epoch, wallet@) && (forall|j: int|
                    0 <= j < i && (#[trigger] self.windex_v()[j]).0.1 == wallet@
                        ==> self.windex_v()[j].0.0 <= best_epoch),
            decreases cnt - i,
        {
            let hit = str_eq(self.wallet_index[i].0.wallet.as_str(), wallet.as_str());
            if hit {
                let e = self.wallet_index[i].0.epoch;
                if !found || e > best_epoch {
                    proof {
                        assert(self.windex_v()[i as int].0.0 == e);
                        assert(self.windex_v()[i as int].0.1 == wallet@);
                        assert(has_leaf(self.windex_v(), e, wallet@));
                        let c = choose|c: int|
                            0 <= c < self.windex_v().len() && (#[trigger] self.windex_v()[c]).0.0
                                == e && self.windex_v()[c].0.1 == wallet@;
                        if c != i as int {
                            let lo: int = if c < i as int {
                                c
                            } else {
                                i as int
                            };
                            let hi: int = if c < i as int {
                                i as int
                            } else {
                                c
                            };
                            assert((self.windex_v()[lo]).0.0 != (self.windex_v()[hi]).0.0 || (
                            self.windex_v()[lo]).0.1 != (self.windex_v()[hi]).0.1);
                        }
                    }
                    best_epoch = e;
                    best_index = self.wallet_index[i].1.0;
                    best_amount = self.wallet_index[i].1.1;
                    found = true;
                }
            }
            i = i + 1;
        }
        if !found {
            return Err(RewardError::NotFound);
        }
        proof {
            assert(has_any_leaf(self.windex_v(), wallet@)) by {
                let c = choose|c: int|
                    0 <= c < self.windex_v().len() && (#[trigger] self.windex_v()[c]).0.0
                        == best_epoch && self.windex_v()[c].0.1 == wallet@;
                assert(self.windex_v()[c].0.1 == wallet@);
            }
            assert forall|e: u64| #[trigger] has_leaf(self.windex_v(), e, wallet@) implies e
                <= best_epoch by {
                let c = choose|c: int|
                    0 <= c < self.windex_v().len() && (#[trigger] self.windex_v()[c]).0.0 == e
                        && self.windex_v()[c].0.1 == wallet@;
                assert(self.windex_v()[c].0.0 <= best_epoch);
            }
        }
        // The global single-outstanding-ticket gate.
        let user_at = self.find_user_index(wallet.as_str());
        match user_at {
            Some(ui) => {
                let ghost bu = self.users_v()[ui as int];
                proof {
                    assert(has_user(self.users_v(), wallet@));
                    let c = user_index(self.users_v(), wallet@);
                    if c != ui as int {
                        assert(self.users_v()[c].wallet != self.users_v()[ui as int].wallet);
                    }
                    assert(user_of(self.users_v(), wallet@) == bu);
                }
                let tn = self.users[ui].tasks.len();
                let mut ti: usize = 0;
                while ti < tn
                    invariant
                        ti <= tn,
                        tn == bu.tasks.len(),
                        bu == self.users_v()[ui as int],
                        bu == user_of(self.users_v(), wallet@),
                        forall|q: int|
                            0 <= q < ti ==> (#[trigger] bu.tasks[q]).status
                                != TaskStatus::TicketIssued && bu.tasks[q].status
                                != TaskStatus::Claimed,
                    decreases tn - ti,
                {
                    let st = self.users[ui].tasks[ti].status;
                    if st == TaskStatus::TicketIssued || st == TaskStatus::Claimed {
                        proof {
                            assert(user_of(self.users_v(), wallet@).tasks[ti as int].status == st);
                            assert(has_blocking_task(self.users_v(), wallet@));
                        }
                        return Err(RewardError::InvalidState);
                    }
                    ti = ti + 1;
                }
                proof {
                    assert(!has_blocking_task(self.users_v(), wallet@));
                }
            },
            None => {
                proof {
                    assert(!has_user(self.users_v(), wallet@));
                    assert(!has_blocking_task(self.users_v(), wallet@));
                }
            },
        }
        // The epoch's frozen root.
        let ghost m = meta_of(self.metas_v(), best_epoch);
        let root = match self.find_meta_index(best_epoch) {
            Some(mi) => {
                proof {
                    let c = meta_index(self.metas_v(), best_epoch);
                    if c != mi as int {
                        assert(self.metas_v()[c].epoch != self.metas_v()[mi as int].epoch);
                    }
                    assert(self.metas_v()[mi as int] == m);
                }
                crate::types::clone_bytes(&self.epoch_meta[mi].root)
            },
            None => {
                proof {
                    let c = choose|c: int|
                        0 <= c < self.windex_v().len() && (#[trigger] self.windex_v()[c]).0.0
                            == best_epoch && self.windex_v()[c].0.1 == wallet@;
                    assert(has_meta(self.metas_v(), self.windex_v()[c].0.0));
                    assert(false);
                }
                return Err(RewardError::NotFound);
            },
        };
        proof {
            assert(self.epoch_wf(m)) by {
                let c = meta_index(self.metas_v(), best_epoch);
                assert(self.metas_v()[c] == m);
            }
            let c = choose|c: int|
                0 <= c < self.windex_v().len() && (#[trigger] self.windex_v()[c]).0.0 == best_epoch
                    && self.windex_v()[c].0.1 == wallet@;
            assert(self.windex_v()[c].1 == leaf_of(self.windex_v(), best_epoch, wallet@)) by {
                let c2 = choose|c2: int|
                    0 <= c2 < self.windex_v().len() && (#[trigger] self.windex_v()[c2]).0.0
                        == best_epoch && self.windex_v()[c2].0.1 == wallet@;
                if c != c2 {
                    let lo: int = if c < c2 {
                        c
                    } else {
                        c2
                    };
                    let hi: int = if c < c2 {
                        c2
                    } else {
                        c
                    };
                    assert((self.windex_v()[lo]).0.0 != (self.windex_v()[hi]).0.0 || (
                    self.windex_v()[lo]).0.1 != (self.windex_v()[hi]).0.1);
                }
            }
            assert((best_index as int) < m.leaves_count);
            assert(self.epoch_layer(best_epoch, 0)[best_index as int] == leaf_hash(
                best_epoch,
                best_index,
                wallet_bytes(wallet@),
                best_amount,
            ));
            assert(root@ == m.root);
        }
        // The inclusion proof.
        let path = match self.generate_merkle_proof(best_epoch, best_index) {
            Ok(p) => p,
            Err(e) => {
                proof {
                    assert(false);
                }
                return Err(e);
            },
        };
        proof {
            let layer0 = self.epoch_layer(best_epoch, 0);
            assert(layer0.len() == layer_size(m.leaves_count as nat, 0)) by {
                assert(has_offset(self.offsets_v(), best_epoch, 0));
            }
            lemma_proof_recombines_to_root(layer0, best_index as int);
            lemma_proof_path_len(layer0, best_index as int);
            assert(fold_proof(
                leaf_hash(best_epoch, best_index, wallet_bytes(wallet@), best_amount),
                hashes_view(path@),
            ) == m.root);
        }
        // Mark every RewardPrepared task as TicketIssued.
        match user_at {
            Some(ui) => {
                let ghost base = self.users_v();
                let ghost bu = base[ui as int];
                proof {
                    let c = user_index(base, wallet@);
                    if c != ui as int {
                        assert(base[c].wallet != base[ui as int].wallet);
                    }
                    assert(user_of(base, wallet@) == bu);
                    assert(user_wf(bu));
                }
                let nt = retag_tasks(
                    &self.users[ui].tasks,
                    TaskStatus::RewardPrepared,
                    TaskStatus::TicketIssued,
                );
                let ghost nts = nt@.map_values(|t: UserTaskDetail| t@);
                proof {
                    assert(nts =~= retag_all(bu.tasks, TaskStatus::RewardPrepared,
                        TaskStatus::TicketIssued));
                    assert forall|j: int| 0 <= j < nts.len() implies unclaimed_part(
                        #[trigger] nts[j],
                    ) == unclaimed_part(bu.tasks[j]) by {
                        assert(nts[j] == retag(bu.tasks[j], TaskStatus::RewardPrepared,
                            TaskStatus::TicketIssued));
                    }
                    crate::types::lemma_unclaimed_sum_pointwise(bu.tasks, nts);
                }
                let total = compute_total_unclaimed(&nt);
                let nu = UserTaskState {
                    wallet: self.users[ui].wallet.clone(),
                    tasks: nt,
                    total_unclaimed: total,
                };
                proof {
                    assert(nu@.tasks == nts);
                    assert(nu@.wallet == wallet@);
                    assert forall|q1: int, q2: int| 0 <= q1 < q2 < nts.len() implies (
                    #[trigger] nts[q1]).taskid != (#[trigger] nts[q2]).taskid by {
                        assert(nts[q1].taskid == bu.tasks[q1].taskid);
                        assert(nts[q2].taskid == bu.tasks[q2].taskid);
                        assert(bu.tasks[q1].taskid != bu.tasks[q2].taskid);
                    }
                    assert(user_wf(nu@));
                    lemma_users_update(base, ui as int, nu@);
                }
                self.users.remove(ui);
                self.users.insert(ui, nu);
                proof {
                    assert(self.users_v() =~= base.update(ui as int, nu@));
                    assert forall|j: int| 0 <= j < self.users_v().len() implies user_wf(
                        #[trigger] self.users_v()[j],
                    ) by {
                        if j != ui as int {
                            assert(self.users_v()[j] == base[j]);
                            assert(user_wf(base[j]));
                        }
                    }
                    lemma_wf_outside_snapshots(*old(self), *self);
                    assert(user_of(self.users_v(), wallet@) == nu@);
                    assert forall|w2: Seq<char>| #[trigger] has_user(old(self).users_v(), w2)
                        implies has_user(self.users_v(), w2) && user_steps_ok(
                        user_of(old(self).users_v(), w2),
                        user_of(self.users_v(), w2),
                    ) by {
                        if w2 == wallet@ {
                            assert(user_of(old(self).users_v(), w2) == bu);
                            assert(user_of(self.users_v(), w2) == nu@);
                            assert forall|q: int| 0 <= q < bu.tasks.len() implies status_step_ok(
                                (#[trigger] bu.tasks[q]).status,
                                nts[q].status,
                            ) by {
                                assert(nts[q] == retag(bu.tasks[q], TaskStatus::RewardPrepared,
                                    TaskStatus::TicketIssued));
                            }
                        } else {
                            assert(has_user(base.update(ui as int, nu@), w2) == has_user(
                                base,
                                w2,
                            ));
                            assert(self.users_v() == base.update(ui as int, nu@));
                            assert(user_of(self.users_v(), w2) == user_of(base, w2));
                        }
                    }
                    assert forall|w2: Seq<char>| w2 != wallet@ implies (#[trigger] has_user(
                        self.users_v(),
                        w2,
                    ) == has_user(old(self).users_v(), w2) && (has_user(old(self).users_v(), w2)
                        ==> user_of(self.users_v(), w2) == user_of(old(self).users_v(), w2))) by {
                        assert(has_user(base.update(ui as int, nu@), w2) == has_user(base, w2));
                        assert(self.users_v() == base.update(ui as int, nu@));
                    }
                }
            },
            None => {},
        }
        Ok(
            ClaimTicket {
                epoch: best_epoch,
                index: best_index,
                wallet,
                amount: best_amount,
                proof: path,
                root,
            },
        )
    }
}

} // verus!
