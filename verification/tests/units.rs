//! Unit tests of the hashing, ordering, address and configuration modules.

use task_rewards::address::decode_wallet_base58;
use task_rewards::ai_config::AiConfigStore;
use task_rewards::ai_config::UserAiConfig;
use task_rewards::hashing::compute_leaf_hash;
use task_rewards::hashing::compute_parent_hash;
use task_rewards::merkle::fold_proof_hashes;
use task_rewards::order::cmp_bytes_le;
use task_rewards::order::str_eq;
use task_rewards::order::str_lt;
use task_rewards::types::RewardError;

#[test]
fn base58_decoding_accepts_32_byte_keys_only() {
    // 32 ones decode to the 32-byte zero key.
    let zeros = "1".repeat(32);
    assert_eq!(decode_wallet_base58(&zeros).unwrap(), vec![0u8; 32]);
    // 31 ones and a '2' decode to 31 zero bytes and a 1.
    let mut w = "1".repeat(31);
    w.push('2');
    let mut expect = vec![0u8; 31];
    expect.push(1);
    assert_eq!(decode_wallet_base58(&w).unwrap(), expect);
    // Too short, not base58, or empty: rejected.
    assert_eq!(decode_wallet_base58("11"), Err(RewardError::InvalidAddress));
    assert_eq!(decode_wallet_base58("0"), Err(RewardError::InvalidAddress));
    assert_eq!(decode_wallet_base58(""), Err(RewardError::InvalidAddress));
}

#[test]
fn parent_hash_is_order_independent_and_known() {
    let a = vec![0u8; 32];
    let b: Vec<u8> = (0u8..32).collect();
    assert_eq!(compute_parent_hash(&a, &b), compute_parent_hash(&b, &a));
    // SHA-256 of 64 zero bytes, a fixed known digest: the hashing really
    // runs SHA-256 rather than echoing its input.
    let p = compute_parent_hash(&a, &a);
    let known = [
        0xf5u8, 0xa5, 0xfd, 0x42, 0xd1, 0x6a, 0x20, 0x30, 0x27, 0x98, 0xef, 0x6e, 0xd3, 0x09,
        0x97, 0x9b, 0x43, 0x00, 0x3d, 0x23, 0x20, 0xd9, 0xf0, 0xe8, 0xea, 0x98, 0x31, 0xa9,
        0x27, 0x59, 0xfb, 0x4b,
    ];
    assert_eq!(p, known.to_vec());
}

#[test]
fn leaf_hash_has_digest_shape() {
    let pk = vec![7u8; 32];
    let h = compute_leaf_hash(1, 0, &pk, 100);
    assert_eq!(h.len(), 32);
    assert_ne!(h, pk);
    // The truncated index is part of the hashed layout: index 2^32 collides
    // with index 0, any other index does not.
    let h0 = compute_leaf_hash(1, 0, &pk, 100);
    let h32 = compute_leaf_hash(1, 1u64 << 32, &pk, 100);
    let h1 = compute_leaf_hash(1, 1, &pk, 100);
    assert_eq!(h0, h32);
    assert_ne!(h0, h1);
}

#[test]
fn fold_proof_of_empty_path_is_the_leaf() {
    let leaf = vec![9u8; 32];
    let folded = fold_proof_hashes(&leaf, &Vec::new());
    assert_eq!(folded, leaf);
}

#[test]
fn byte_and_string_orderings() {
    assert!(cmp_bytes_le(&[1, 2], &[1, 3]));
    assert!(!cmp_bytes_le(&[1, 4], &[1, 3]));
    assert!(cmp_bytes_le(&[1, 2], &[1, 2]));
    assert!(cmp_bytes_le(&[1], &[1, 0]));
    assert!(str_lt("abc", "abd"));
    assert!(str_lt("ab", "abc"));
    assert!(!str_lt("abc", "abc"));
    assert!(str_eq("abc", "abc"));
    assert!(!str_eq("abc", "abd"));
}

#[test]
fn ai_config_store_get_set_delete() {
    let mut store = AiConfigStore::new();
    assert!(!store.has_user_ai_config("alice".to_string()));
    assert!(store.get_user_ai_config("alice".to_string()).is_none());
    store
        .set_user_ai_config(UserAiConfig {
            principal_id: "alice".to_string(),
            agent_id: "a-1".to_string(),
            voice_id: "v-1".to_string(),
        })
        .unwrap();
    assert!(store.has_user_ai_config("alice".to_string()));
    let c = store.get_user_ai_config("alice".to_string()).unwrap();
    assert_eq!(c.agent_id, "a-1");
    // Replacing keeps one entry per principal.
    store
        .set_user_ai_config(UserAiConfig {
            principal_id: "alice".to_string(),
            agent_id: "a-2".to_string(),
            voice_id: "v-2".to_string(),
        })
        .unwrap();
    let c = store.get_user_ai_config("alice".to_string()).unwrap();
    assert_eq!(c.agent_id, "a-2");
    assert_eq!(store.entries.len(), 1);
    store.delete_user_ai_config("alice".to_string()).unwrap();
    assert!(!store.has_user_ai_config("alice".to_string()));
    assert_eq!(
        store.delete_user_ai_config("alice".to_string()),
        Err(RewardError::NotFound)
    );
}
