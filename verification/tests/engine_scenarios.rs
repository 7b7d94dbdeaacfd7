//! End-to-end scenarios of the reward engine: task completion, snapshot
//! build, ticket issuance and claim reconciliation.

use task_rewards::engine::RewardEngine;
use task_rewards::merkle::fold_proof_hashes;
use task_rewards::hashing::compute_leaf_hash;
use task_rewards::address::decode_wallet_base58;
use task_rewards::types::ClaimResultStatus;
use task_rewards::types::RewardError;
use task_rewards::types::TaskContractItem;
use task_rewards::types::TaskStatus;

fn wallet(last: char) -> String {
    let mut s = "1".repeat(31);
    s.push(last);
    s
}

fn engine_with_task(taskid: &str, reward: u64) -> RewardEngine {
    let mut eng = RewardEngine::new();
    let tasks = vec![TaskContractItem {
        taskid: taskid.to_string(),
        reward,
        payfor: None,
    }];
    eng.init_task_contract(tasks, true).unwrap();
    eng
}

#[test]
fn full_lifecycle_single_wallet() {
    // completeTask -> buildSnapshot -> issueTicket -> reportClaimResult.
    let w1 = wallet('2');
    let mut eng = engine_with_task("T1", 100);
    eng.complete_task(w1.clone(), "T1".to_string(), None, 7).unwrap();
    let st = eng.get_or_init_user_tasks(w1.clone()).unwrap();
    assert_eq!(st.tasks[0].status, TaskStatus::Completed);
    assert_eq!(st.tasks[0].reward_amount, 100);
    assert_eq!(st.tasks[0].completed_at, 7);
    assert_eq!(st.total_unclaimed, 0);

    let meta = eng.build_epoch_snapshot(1, true, 42).unwrap();
    assert_eq!(meta.epoch, 1);
    assert_eq!(meta.leaves_count, 1);
    assert!(meta.locked);
    assert_eq!(meta.created_at, 42);
    // A 1-leaf epoch's root equals the single leaf hash.
    let pk = decode_wallet_base58(&w1).unwrap();
    let leaf = compute_leaf_hash(1, 0, &pk, 100);
    assert_eq!(meta.root, leaf);

    let st = eng.get_or_init_user_tasks(w1.clone()).unwrap();
    assert_eq!(st.tasks[0].status, TaskStatus::RewardPrepared);
    assert_eq!(st.total_unclaimed, 100);

    let ticket = eng.get_claim_ticket(w1.clone()).unwrap();
    assert_eq!(ticket.epoch, 1);
    assert_eq!(ticket.index, 0);
    assert_eq!(ticket.amount, 100);
    assert_eq!(ticket.wallet, w1);
    // A 1-leaf epoch's proof is empty.
    assert!(ticket.proof.is_empty());
    assert_eq!(ticket.root, meta.root);

    let st = eng.get_or_init_user_tasks(w1.clone()).unwrap();
    assert_eq!(st.tasks[0].status, TaskStatus::TicketIssued);
    assert_eq!(st.total_unclaimed, 100);

    eng.mark_claim_result(w1.clone(), 1, ClaimResultStatus::Success, None).unwrap();
    let st = eng.get_or_init_user_tasks(w1.clone()).unwrap();
    assert_eq!(st.tasks[0].status, TaskStatus::Claimed);
    assert_eq!(st.total_unclaimed, 0);
}

#[test]
fn build_snapshot_twice_fails_already_exists() {
    let w1 = wallet('2');
    let mut eng = engine_with_task("T1", 100);
    eng.complete_task(w1, "T1".to_string(), None, 1).unwrap();
    eng.build_epoch_snapshot(1, true, 5).unwrap();
    assert_eq!(eng.build_epoch_snapshot(1, true, 6).map(|_| ()), Err(RewardError::AlreadyExists));
}

#[test]
fn issue_ticket_without_rewards_fails_not_found() {
    let w1 = wallet('2');
    let mut eng = engine_with_task("T1", 100);
    eng.get_or_init_user_tasks(w1.clone()).unwrap();
    assert_eq!(eng.get_claim_ticket(w1).map(|_| ()), Err(RewardError::NotFound));
}

#[test]
fn issue_ticket_twice_fails_invalid_state() {
    let w1 = wallet('2');
    let mut eng = engine_with_task("T1", 100);
    eng.complete_task(w1.clone(), "T1".to_string(), None, 1).unwrap();
    eng.build_epoch_snapshot(1, true, 5).unwrap();
    eng.get_claim_ticket(w1.clone()).unwrap();
    assert_eq!(eng.get_claim_ticket(w1).map(|_| ()), Err(RewardError::InvalidState));
}

#[test]
fn claim_failure_reverts_and_permits_reissue() {
    let w1 = wallet('2');
    let mut eng = engine_with_task("T1", 100);
    eng.complete_task(w1.clone(), "T1".to_string(), None, 1).unwrap();
    eng.build_epoch_snapshot(1, true, 5).unwrap();
    eng.get_claim_ticket(w1.clone()).unwrap();
    eng.mark_claim_result(w1.clone(), 1, ClaimResultStatus::Failed, None).unwrap();
    let st = eng.get_or_init_user_tasks(w1.clone()).unwrap();
    assert_eq!(st.tasks[0].status, TaskStatus::RewardPrepared);
    assert_eq!(st.total_unclaimed, 100);
    // The ticket may be issued again after the reported failure.
    let ticket = eng.get_claim_ticket(w1).unwrap();
    assert_eq!(ticket.amount, 100);
}

#[test]
fn three_leaf_epoch_duplicates_last_leaf_and_proofs_recombine() {
    // Three qualifying wallets: the 3rd leaf pairs with itself at layer 0.
    let w = [wallet('2'), wallet('3'), wallet('4')];
    let mut eng = RewardEngine::new();
    eng.init_task_contract(
        vec![TaskContractItem { taskid: "T1".to_string(), reward: 10, payfor: None }],
        true,
    )
    .unwrap();
    for wi in w.iter() {
        eng.complete_task(wi.clone(), "T1".to_string(), None, 1).unwrap();
    }
    let meta = eng.build_epoch_snapshot(1, true, 9).unwrap();
    assert_eq!(meta.leaves_count, 3);
    // Wallets sort ascending: w[0] < w[1] < w[2]; the last gets index 2.
    let ticket = eng.get_claim_ticket(w[2].clone()).unwrap();
    assert_eq!(ticket.index, 2);
    assert_eq!(ticket.proof.len(), 2);
    // Its sibling at layer 0 is its own leaf hash (duplicate-self rule).
    let pk = decode_wallet_base58(&w[2]).unwrap();
    let leaf = compute_leaf_hash(1, 2, &pk, 10);
    assert_eq!(ticket.proof[0], leaf);
    // Every leaf's proof recombines to the published root.
    for wi in w.iter() {
        let mut e2 = RewardEngine::new();
        e2.init_task_contract(
            vec![TaskContractItem { taskid: "T1".to_string(), reward: 10, payfor: None }],
            true,
        )
        .unwrap();
        for wj in w.iter() {
            e2.complete_task(wj.clone(), "T1".to_string(), None, 1).unwrap();
        }
        e2.build_epoch_snapshot(1, true, 9).unwrap();
        let t = e2.get_claim_ticket(wi.clone()).unwrap();
        let pk = decode_wallet_base58(wi).unwrap();
        let leaf = compute_leaf_hash(t.epoch, t.index, &pk, t.amount);
        let recombined = fold_proof_hashes(&leaf, &t.proof);
        assert_eq!(recombined, t.root);
        assert_eq!(t.root, meta.root);
    }
}

#[test]
fn identical_entry_lists_rebuild_identical_roots() {
    // Two engines fed the same data freeze the same root.
    let build = || {
        let mut eng = engine_with_task("T1", 55);
        eng.complete_task(wallet('2'), "T1".to_string(), None, 3).unwrap();
        eng.complete_task(wallet('3'), "T1".to_string(), None, 4).unwrap();
        eng.build_epoch_snapshot(7, true, 1).unwrap()
    };
    let a = build();
    let b = build();
    assert_eq!(a.root, b.root);
    assert_eq!(a.leaves_count, b.leaves_count);
}

#[test]
fn total_unclaimed_tracks_prepared_and_issued_sums() {
    // The cached total equals the sum over RewardPrepared and TicketIssued
    // tasks after every mutating call.
    let w1 = wallet('2');
    let mut eng = RewardEngine::new();
    eng.init_task_contract(
        vec![
            TaskContractItem { taskid: "A".to_string(), reward: 30, payfor: None },
            TaskContractItem { taskid: "B".to_string(), reward: 70, payfor: None },
        ],
        true,
    )
    .unwrap();
    let check = |eng: &mut RewardEngine, w: &str| {
        let st = eng.get_or_init_user_tasks(w.to_string()).unwrap();
        let manual: u64 = st
            .tasks
            .iter()
            .filter(|t| {
                t.status == TaskStatus::RewardPrepared || t.status == TaskStatus::TicketIssued
            })
            .map(|t| t.reward_amount)
            .sum();
        assert_eq!(st.total_unclaimed, manual);
    };
    check(&mut eng, &w1);
    eng.complete_task(w1.clone(), "A".to_string(), None, 1).unwrap();
    check(&mut eng, &w1);
    eng.complete_task(w1.clone(), "B".to_string(), None, 2).unwrap();
    check(&mut eng, &w1);
    eng.build_epoch_snapshot(1, true, 3).unwrap();
    check(&mut eng, &w1);
    eng.get_claim_ticket(w1.clone()).unwrap();
    check(&mut eng, &w1);
    eng.mark_claim_result(w1.clone(), 1, ClaimResultStatus::Success, None).unwrap();
    check(&mut eng, &w1);
}

#[test]
fn statuses_move_only_along_the_chain() {
    // Observe every status along a run: each step keeps or advances the
    // rank, except the sanctioned TicketIssued -> RewardPrepared reversal.
    let rank = |s: &TaskStatus| match s {
        TaskStatus::NotStarted => 0,
        TaskStatus::InProgress => 1,
        TaskStatus::Completed => 2,
        TaskStatus::RewardPrepared => 3,
        TaskStatus::TicketIssued => 4,
        TaskStatus::Claimed => 5,
    };
    let w1 = wallet('2');
    let mut eng = engine_with_task("T1", 5);
    let mut prev = eng.get_or_init_user_tasks(w1.clone()).unwrap().tasks[0].status;
    eng.complete_task(w1.clone(), "T1".to_string(), None, 1).unwrap();
    let mut steps: Vec<TaskStatus> = Vec::new();
    steps.push(eng.get_or_init_user_tasks(w1.clone()).unwrap().tasks[0].status);
    eng.build_epoch_snapshot(1, true, 2).unwrap();
    steps.push(eng.get_or_init_user_tasks(w1.clone()).unwrap().tasks[0].status);
    eng.get_claim_ticket(w1.clone()).unwrap();
    steps.push(eng.get_or_init_user_tasks(w1.clone()).unwrap().tasks[0].status);
    eng.mark_claim_result(w1.clone(), 1, ClaimResultStatus::Failed, None).unwrap();
    steps.push(eng.get_or_init_user_tasks(w1.clone()).unwrap().tasks[0].status);
    eng.get_claim_ticket(w1.clone()).unwrap();
    steps.push(eng.get_or_init_user_tasks(w1.clone()).unwrap().tasks[0].status);
    eng.mark_claim_result(w1.clone(), 1, ClaimResultStatus::Success, None).unwrap();
    steps.push(eng.get_or_init_user_tasks(w1.clone()).unwrap().tasks[0].status);
    for s in steps {
        let ok = rank(&s) >= rank(&prev)
            || (prev == TaskStatus::TicketIssued && s == TaskStatus::RewardPrepared);
        assert!(ok, "illegal transition");
        prev = s;
    }
    assert_eq!(prev, TaskStatus::Claimed);
}

#[test]
fn payment_with_matching_tag_auto_completes_task() {
    let w1 = wallet('2');
    let mut eng = RewardEngine::new();
    eng.init_task_contract(
        vec![TaskContractItem {
            taskid: "SUB".to_string(),
            reward: 40,
            payfor: Some("subscription".to_string()),
        }],
        true,
    )
    .unwrap();
    eng.record_payment(w1.clone(), 999, "tx-1".to_string(), 11, Some("subscription".to_string()))
        .unwrap();
    let st = eng.get_or_init_user_tasks(w1.clone()).unwrap();
    assert_eq!(st.tasks[0].status, TaskStatus::Completed);
    assert_eq!(st.tasks[0].reward_amount, 40);
    assert_eq!(st.tasks[0].completed_at, 11);
    assert_eq!(eng.payments.len(), 1);
    assert_eq!(eng.payments[0].amount_paid, 999);
    // A second matching payment is a no-op on the already-completed task.
    eng.record_payment(w1.clone(), 5, "tx-2".to_string(), 12, Some("subscription".to_string()))
        .unwrap();
    let st = eng.get_or_init_user_tasks(w1).unwrap();
    assert_eq!(st.tasks[0].completed_at, 11);
    assert_eq!(eng.payments.len(), 2);
}

#[test]
fn error_paths_of_each_operation() {
    let w1 = wallet('2');
    let mut eng = engine_with_task("T1", 10);
    // PermissionDenied for non-admin callers.
    assert_eq!(eng.init_task_contract(Vec::new(), false), Err(RewardError::PermissionDenied));
    assert_eq!(
        eng.build_epoch_snapshot(1, false, 0).map(|_| ()),
        Err(RewardError::PermissionDenied)
    );
    // InvalidAddress for malformed wallets.
    assert_eq!(
        eng.get_or_init_user_tasks("not-base58-0OIl".to_string()).map(|_| ()),
        Err(RewardError::InvalidAddress)
    );
    assert_eq!(
        eng.complete_task("11".to_string(), "T1".to_string(), None, 0),
        Err(RewardError::InvalidAddress)
    );
    assert_eq!(
        eng.record_payment("11".to_string(), 1, "t".to_string(), 0, None),
        Err(RewardError::InvalidAddress)
    );
    assert_eq!(
        eng.get_claim_ticket("11".to_string()).map(|_| ()),
        Err(RewardError::InvalidAddress)
    );
    assert_eq!(
        eng.mark_claim_result("11".to_string(), 1, ClaimResultStatus::Success, None),
        Err(RewardError::InvalidAddress)
    );
    // NotFound for an unknown task or an untracked wallet.
    assert_eq!(
        eng.complete_task(w1.clone(), "NOPE".to_string(), None, 0),
        Err(RewardError::NotFound)
    );
    assert_eq!(
        eng.mark_claim_result(w1.clone(), 1, ClaimResultStatus::Success, None),
        Err(RewardError::NotFound)
    );
    // Empty when no wallet qualifies.
    assert_eq!(eng.build_epoch_snapshot(1, true, 0).map(|_| ()), Err(RewardError::Empty));
    // InvalidState when completing an already-completed task.
    eng.complete_task(w1.clone(), "T1".to_string(), None, 1).unwrap();
    assert_eq!(
        eng.complete_task(w1, "T1".to_string(), None, 2),
        Err(RewardError::InvalidState)
    );
}

#[test]
fn registry_edits_never_change_pinned_rewards() {
    let w1 = wallet('2');
    let mut eng = engine_with_task("T1", 100);
    eng.complete_task(w1.clone(), "T1".to_string(), None, 1).unwrap();
    // Raising the reward afterwards leaves the pinned amount untouched.
    eng.init_task_contract(
        vec![TaskContractItem { taskid: "T1".to_string(), reward: 999, payfor: None }],
        true,
    )
    .unwrap();
    let st = eng.get_or_init_user_tasks(w1).unwrap();
    assert_eq!(st.tasks[0].reward_amount, 100);
    let items = eng.get_task_contract();
    assert_eq!(items.len(), 1);
    assert_eq!(items[0].reward, 999);
}

#[test]
fn epoch_metadata_is_listed_and_queryable() {
    let w1 = wallet('2');
    let mut eng = engine_with_task("T1", 10);
    assert!(eng.get_epoch_meta(1).is_none());
    eng.complete_task(w1, "T1".to_string(), None, 1).unwrap();
    eng.build_epoch_snapshot(1, true, 77).unwrap();
    let m = eng.get_epoch_meta(1).unwrap();
    assert_eq!(m.epoch, 1);
    assert_eq!(m.created_at, 77);
    let all = eng.list_all_epochs();
    assert_eq!(all.len(), 1);
    assert_eq!(all[0].epoch, 1);
    // generate_merkle_proof for the single leaf yields an empty proof.
    let p = eng.generate_merkle_proof(1, 0).unwrap();
    assert!(p.is_empty());
}

#[test]
fn listings_come_in_key_order() {
    // Tasks defined out of identifier order and epochs built out of numeric
    // order are still listed ascending by key, as a key-ordered store would.
    let w1 = wallet('2');
    let mut eng = RewardEngine::new();
    eng.init_task_contract(
        vec![
            TaskContractItem { taskid: "B".to_string(), reward: 2, payfor: None },
            TaskContractItem { taskid: "A".to_string(), reward: 1, payfor: None },
            TaskContractItem { taskid: "C".to_string(), reward: 3, payfor: None },
        ],
        true,
    )
    .unwrap();
    let listed = eng.get_task_contract();
    let ids: Vec<&str> = listed.iter().map(|t| t.taskid.as_str()).collect();
    assert_eq!(ids, vec!["A", "B", "C"]);

    eng.complete_task(w1.clone(), "A".to_string(), None, 1).unwrap();
    eng.build_epoch_snapshot(5, true, 10).unwrap();
    eng.mark_claim_result(w1.clone(), 5, ClaimResultStatus::Success, None).unwrap();
    eng.complete_task(w1.clone(), "B".to_string(), None, 2).unwrap();
    eng.build_epoch_snapshot(2, true, 11).unwrap();
    let epochs: Vec<u64> = eng.list_all_epochs().iter().map(|m| m.epoch).collect();
    assert_eq!(epochs, vec![2, 5]);
}

#[test]
fn payment_tag_scan_follows_task_identifier_order() {
    // Two registry tasks share a tag: the payment auto-completes the one
    // first in ascending taskid order, however the registry was defined.
    let w1 = wallet('2');
    let mut eng = RewardEngine::new();
    eng.init_task_contract(
        vec![
            TaskContractItem {
                taskid: "Z".to_string(),
                reward: 9,
                payfor: Some("sub".to_string()),
            },
            TaskContractItem {
                taskid: "A".to_string(),
                reward: 4,
                payfor: Some("sub".to_string()),
            },
        ],
        true,
    )
    .unwrap();
    eng.record_payment(w1.clone(), 1, "tx".to_string(), 6, Some("sub".to_string())).unwrap();
    let st = eng.get_or_init_user_tasks(w1).unwrap();
    let a = st.tasks.iter().find(|t| t.taskid == "A").unwrap();
    let z = st.tasks.iter().find(|t| t.taskid == "Z").unwrap();
    assert_eq!(a.status, TaskStatus::Completed);
    assert_eq!(a.reward_amount, 4);
    assert_eq!(z.status, TaskStatus::NotStarted);
}
