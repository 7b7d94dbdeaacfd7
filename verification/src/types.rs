//! Data model of the reward engine: task registry entries, per-wallet task
//! state, payment records, epoch snapshot artifacts and claim tickets.

use vstd::prelude::*;

verus! {

/// Recoverable failures reported by the engine's operations.
#[derive(Clone, Copy, Debug, PartialEq, Eq, Structural)]
pub enum RewardError {
    /// The caller is not a privileged administrator.
    PermissionDenied,
    /// Unknown task, epoch, wallet or wallet leaf.
    NotFound,
    /// A snapshot for the requested epoch already exists.
    AlreadyExists,
    /// The wallet is not a well-formed base58 32-byte public key.
    InvalidAddress,
    /// The targeted task is not in the source state the transition requires.
    InvalidState,
    /// No wallet qualifies for the requested snapshot.
    Empty,
}

/// Lifecycle state of one task for one wallet.
#[derive(Clone, Copy, Debug, PartialEq, Eq, Structural)]
pub enum TaskStatus {
    NotStarted,
    InProgress,
    Completed,
    RewardPrepared,
    TicketIssued,
    Claimed,
}

/// Outcome of an on-chain claim, reported back by the settlement layer.
#[derive(Clone, Copy, Debug, PartialEq, Eq, Structural)]
pub enum ClaimResultStatus {
    Success,
    Failed,
}

/// Position of a status along the task lifecycle chain.
pub open spec fn status_rank(s: TaskStatus) -> int {
    match s {
        TaskStatus::NotStarted => 0,
        TaskStatus::InProgress => 1,
        TaskStatus::Completed => 2,
        TaskStatus::RewardPrepared => 3,
        TaskStatus::TicketIssued => 4,
        TaskStatus::Claimed => 5,
    }
}

/// A status may only keep its rank or move forward along the lifecycle chain,
/// except for the single sanctioned backward edge TicketIssued ->
/// RewardPrepared taken when a claim is reported failed.
pub open spec fn status_step_ok(before: TaskStatus, after: TaskStatus) -> bool {
    ||| status_rank(before) <= status_rank(after)
    ||| (before == TaskStatus::TicketIssued && after == TaskStatus::RewardPrepared)
}

/// Statuses whose pinned reward counts toward the cached unclaimed total.
pub open spec fn counts_as_unclaimed(s: TaskStatus) -> bool {
    s == TaskStatus::RewardPrepared || s == TaskStatus::TicketIssued
}

/// One entry of the task registry: a task identifier, the reward it pays,
/// and an optional tag linking it to an external payment event.
pub struct TaskContractItem {
    pub taskid: String,
    pub reward: u64,
    pub payfor: Option<String>,
}

/// Mathematical model of a registry entry.
#[verifier::ext_equal]
pub struct TaskContractItemView {
    pub taskid: Seq<char>,
    pub reward: u64,
    pub payfor: Option<Seq<char>>,
}

impl View for TaskContractItem {
    type V = TaskContractItemView;

    open spec fn view(&self) -> TaskContractItemView {
        TaskContractItemView {
            taskid: self.taskid@,
            reward: self.reward,
            payfor: match self.payfor {
                Some(s) => Some(s@),
                None => None,
            },
        }
    }
}

impl Clone for TaskContractItem {
    fn clone(&self) -> (res: Self)
        ensures
            res@ == self@,
    {
        TaskContractItem {
            taskid: self.taskid.clone(),
            reward: self.reward,
            payfor: clone_opt_string(&self.payfor),
        }
    }
}

/// Per-wallet state of one task: its status, the completion timestamp
/// (0 while not completed), the reward pinned at completion time, and the
/// evidence string supplied by the caller.
pub struct UserTaskDetail {
    pub taskid: String,
    pub status: TaskStatus,
    pub completed_at: u64,
    pub reward_amount: u64,
    pub evidence: Option<String>,
}

/// Mathematical model of one task's per-wallet state.
#[verifier::ext_equal]
pub struct UserTaskDetailView {
    pub taskid: Seq<char>,
    pub status: TaskStatus,
    pub completed_at: u64,
    pub reward_amount: u64,
    pub evidence: Option<Seq<char>>,
}

impl View for UserTaskDetail {
    type V = UserTaskDetailView;

    open spec fn view(&self) -> UserTaskDetailView {
        UserTaskDetailView {
            taskid: self.taskid@,
            status: self.status,
            completed_at: self.completed_at,
            reward_amount: self.reward_amount,
            evidence: match self.evidence {
                Some(s) => Some(s@),
                None => None,
            },
        }
    }
}

impl Clone for UserTaskDetail {
    fn clone(&self) -> (res: Self)
        ensures
            res@ == self@,
    {
        UserTaskDetail {
            taskid: self.taskid.clone(),
            status: self.status,
            completed_at: self.completed_at,
            reward_amount: self.reward_amount,
            evidence: clone_opt_string(&self.evidence),
        }
    }
}

/// Aggregate of every task's state for one wallet, with the cached total of
/// unclaimed rewards.
pub struct UserTaskState {
    pub wallet: String,
    pub tasks: Vec<UserTaskDetail>,
    pub total_unclaimed: u64,
}

/// Mathematical model of one wallet's aggregate task state.
#[verifier::ext_equal]
pub struct UserTaskStateView {
    pub wallet: Seq<char>,
    pub tasks: Seq<UserTaskDetailView>,
    pub total_unclaimed: u64,
}

impl View for UserTaskState {
    type V = UserTaskStateView;

    open spec fn view(&self) -> UserTaskStateView {
        UserTaskStateView {
            wallet: self.wallet@,
            tasks: self.tasks@.map_values(|t: UserTaskDetail| t@),
            total_unclaimed: self.total_unclaimed,
        }
    }
}

impl Clone for UserTaskState {
    fn clone(&self) -> (res: Self)
        ensures
            res@ == self@,
    {
        let mut tasks: Vec<UserTaskDetail> = Vec::new();
        let mut i: usize = 0;
        while i < self.tasks.len()
            invariant
                i <= self.tasks.len(),
                tasks@.len() == i,
                forall|j: int| 0 <= j < i ==> tasks@[j]@ == self.tasks@[j]@,
            decreases self.tasks.len() - i,
        {
            tasks.push(self.tasks[i].clone());
            i = i + 1;
        }
        proof {
            assert(tasks@.map_values(|t: UserTaskDetail| t@) =~= self.tasks@.map_values(
                |t: UserTaskDetail| t@,
            ));
        }
        UserTaskState { wallet: self.wallet.clone(), tasks, total_unclaimed: self.total_unclaimed }
    }
}

/// One immutable payment, addressed by its insertion-order sequence number.
pub struct PaymentRecord {
    pub wallet: String,
    pub amount_paid: u64,
    pub tx_ref: String,
    pub ts: u64,
    pub payfor: Option<String>,
}

/// Mathematical model of a payment record.
#[verifier::ext_equal]
pub struct PaymentRecordView {
    pub wallet: Seq<char>,
    pub amount_paid: u64,
    pub tx_ref: Seq<char>,
    pub ts: u64,
    pub payfor: Option<Seq<char>>,
}

impl View for PaymentRecord {
    type V = PaymentRecordView;

    open spec fn view(&self) -> PaymentRecordView {
        PaymentRecordView {
            wallet: self.wallet@,
            amount_paid: self.amount_paid,
            tx_ref: self.tx_ref@,
            ts: self.ts,
            payfor: match self.payfor {
                Some(s) => Some(s@),
                None => None,
            },
        }
    }
}

/// One leaf of an epoch's distribution: a wallet's claimable sum and its
/// position in the sorted leaf order.
pub struct ClaimEntry {
    pub epoch: u64,
    pub index: u64,
    pub wallet: String,
    pub amount: u64,
}

/// Mathematical model of a claim entry.
#[verifier::ext_equal]
pub struct ClaimEntryView {
    pub epoch: u64,
    pub index: u64,
    pub wallet: Seq<char>,
    pub amount: u64,
}

impl View for ClaimEntry {
    type V = ClaimEntryView;

    open spec fn view(&self) -> ClaimEntryView {
        ClaimEntryView {
            epoch: self.epoch,
            index: self.index,
            wallet: self.wallet@,
            amount: self.amount,
        }
    }
}

impl Clone for ClaimEntry {
    fn clone(&self) -> (res: Self)
        ensures
            res@ == self@,
    {
        ClaimEntry {
            epoch: self.epoch,
            index: self.index,
            wallet: self.wallet.clone(),
            amount: self.amount,
        }
    }
}

/// Write-once metadata of one epoch's frozen Merkle snapshot.
pub struct MerkleSnapshotMeta {
    pub epoch: u64,
    pub root: Vec<u8>,
    pub leaves_count: u64,
    pub locked: bool,
    pub created_at: u64,
}

/// Mathematical model of an epoch snapshot's metadata.
#[verifier::ext_equal]
pub struct MerkleSnapshotMetaView {
    pub epoch: u64,
    pub root: Seq<u8>,
    pub leaves_count: u64,
    pub locked: bool,
    pub created_at: u64,
}

impl View for MerkleSnapshotMeta {
    type V = MerkleSnapshotMetaView;

    open spec fn view(&self) -> MerkleSnapshotMetaView {
        MerkleSnapshotMetaView {
            epoch: self.epoch,
            root: self.root@,
            leaves_count: self.leaves_count,
            locked: self.locked,
            created_at: self.created_at,
        }
    }
}

impl Clone for MerkleSnapshotMeta {
    fn clone(&self) -> (res: Self)
        ensures
            res@ == self@,
    {
        MerkleSnapshotMeta {
            epoch: self.epoch,
            root: clone_bytes(&self.root),
            leaves_count: self.leaves_count,
            locked: self.locked,
            created_at: self.created_at,
        }
    }
}

/// Everything a wallet submits to the external settlement layer: the leaf
/// data, the ordered sibling-hash proof and the epoch root.
pub struct ClaimTicket {
    pub epoch: u64,
    pub index: u64,
    pub wallet: String,
    pub amount: u64,
    pub proof: Vec<Vec<u8>>,
    pub root: Vec<u8>,
}

/// One 32-byte node of a stored Merkle tree.
pub struct MerkleHash(pub Vec<u8>);

impl View for MerkleHash {
    type V = Seq<u8>;

    open spec fn view(&self) -> Seq<u8> {
        self.0@
    }
}

/// Start offset and node count of one (epoch, layer) pair inside the flat
/// contiguous hash store.
#[derive(Clone, Copy, Debug, PartialEq, Eq, Structural)]
pub struct LayerOffset {
    pub start: u64,
    pub len: u32,
}

/// Key of the per-(epoch, wallet) leaf index.
pub struct EpochWalletKey {
    pub epoch: u64,
    pub wallet: String,
}

/// Key of the per-(epoch, layer) offset index.
#[derive(Clone, Copy, Debug, PartialEq, Eq, Structural)]
pub struct EpochLayerKey {
    pub epoch: u64,
    pub layer_id: u32,
}

/// Clones an optional string, keeping its characters.
pub fn clone_opt_string(s: &Option<String>) -> (res: Option<String>)
    ensures
        (match (s, &res) {
            (Some(a), Some(b)) => a@ == b@,
            (None, None) => true,
            _ => false,
        }),
{
    match s {
        Some(v) => Some(v.clone()),
        None => None,
    }
}

/// Clones a byte vector, keeping its contents.
pub fn clone_bytes(v: &Vec<u8>) -> (res: Vec<u8>)
    ensures
        res@ == v@,
{
    let r = v.clone();
    proof {
        assert(r@ =~= v@);
    }
    r
}

/// What one task contributes to the cached unclaimed total.
pub open spec fn unclaimed_part(t: UserTaskDetailView) -> int {
    if counts_as_unclaimed(t.status) {
        t.reward_amount as int
    } else {
        0
    }
}

/// What one task contributes to a wallet's claimable sum at snapshot time.
pub open spec fn completed_part(t: UserTaskDetailView) -> int {
    if t.status == TaskStatus::Completed {
        t.reward_amount as int
    } else {
        0
    }
}

/// Sum of the pinned rewards of the tasks whose status counts as unclaimed
/// (RewardPrepared or TicketIssued).
pub open spec fn unclaimed_sum(tasks: Seq<UserTaskDetailView>) -> int
    decreases tasks.len(),
{
    if tasks.len() == 0 {
        0
    } else {
        unclaimed_sum(tasks.drop_last()) + unclaimed_part(tasks.last())
    }
}

/// Sum of the pinned rewards of the tasks currently in status Completed.
pub open spec fn completed_sum(tasks: Seq<UserTaskDetailView>) -> int
    decreases tasks.len(),
{
    if tasks.len() == 0 {
        0
    } else {
        completed_sum(tasks.drop_last()) + completed_part(tasks.last())
    }
}

/// Both sums are sums of non-negative parts: they are non-negative, and every
/// prefix sums to no more than the whole.
pub proof fn lemma_sums_prefix(tasks: Seq<UserTaskDetailView>, i: int)
    requires
        0 <= i <= tasks.len(),
    ensures
        0 <= unclaimed_sum(tasks.take(i)) <= unclaimed_sum(tasks),
        0 <= completed_sum(tasks.take(i)) <= completed_sum(tasks),
    decreases tasks.len(),
{
    if tasks.len() == 0 {
        assert(tasks.take(i) =~= tasks);
    } else if i == tasks.len() {
        assert(tasks.take(i) =~= tasks);
        lemma_sums_prefix(tasks.drop_last(), i - 1);
    } else {
        lemma_sums_prefix(tasks.drop_last(), i);
        assert(tasks.drop_last().take(i) =~= tasks.take(i));
    }
}

/// Where each task's unclaimed part shrinks or stays, the unclaimed sum
/// shrinks or stays; where every part is kept, the sum is kept.
pub proof fn lemma_unclaimed_sum_pointwise(a: Seq<UserTaskDetailView>, b: Seq<UserTaskDetailView>)
    requires
        a.len() == b.len(),
        forall|i: int| 0 <= i < a.len() ==> unclaimed_part(#[trigger] b[i]) <= unclaimed_part(a[i]),
    ensures
        unclaimed_sum(b) <= unclaimed_sum(a),
        (forall|i: int|
            0 <= i < a.len() ==> unclaimed_part(#[trigger] b[i]) == unclaimed_part(a[i]))
            ==> unclaimed_sum(b) == unclaimed_sum(a),
    decreases a.len(),
{
    if a.len() > 0 {
        assert(forall|i: int|
            0 <= i < a.drop_last().len() ==> unclaimed_part(#[trigger] b.drop_last()[i])
                <= unclaimed_part(a.drop_last()[i]));
        lemma_unclaimed_sum_pointwise(a.drop_last(), b.drop_last());
        if forall|i: int|
            0 <= i < a.len() ==> unclaimed_part(#[trigger] b[i]) == unclaimed_part(a[i]) {
            assert(forall|i: int|
                0 <= i < a.drop_last().len() ==> unclaimed_part(#[trigger] b.drop_last()[i])
                    == unclaimed_part(a.drop_last()[i]));
        }
    }
}

/// Moving every Completed task to RewardPrepared, and nothing else, moves the
/// whole completed sum into the unclaimed sum.
pub proof fn lemma_prepare_sums(a: Seq<UserTaskDetailView>, b: Seq<UserTaskDetailView>)
    requires
        a.len() == b.len(),
        forall|i: int|
            0 <= i < a.len() ==> #[trigger] b[i] == (if a[i].status == TaskStatus::Completed {
                UserTaskDetailView {
                    taskid: a[i].taskid,
                    status: TaskStatus::RewardPrepared,
                    completed_at: a[i].completed_at,
                    reward_amount: a[i].reward_amount,
                    evidence: a[i].evidence,
                }
            } else {
                a[i]
            }),
    ensures
        unclaimed_sum(b) == unclaimed_sum(a) + completed_sum(a),
        completed_sum(b) == 0,
    decreases a.len(),
{
    if a.len() > 0 {
        assert(forall|i: int|
            0 <= i < a.drop_last().len() ==> #[trigger] b.drop_last()[i] == (
            if a.drop_last()[i].status == TaskStatus::Completed {
                UserTaskDetailView {
                    taskid: a.drop_last()[i].taskid,
                    status: TaskStatus::RewardPrepared,
                    completed_at: a.drop_last()[i].completed_at,
                    reward_amount: a.drop_last()[i].reward_amount,
                    evidence: a.drop_last()[i].evidence,
                }
            } else {
                a.drop_last()[i]
            }));
        lemma_prepare_sums(a.drop_last(), b.drop_last());
    }
}

} // verus!
