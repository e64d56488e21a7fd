use backit::codec::build_message;
use backit::consensus::{OutcomeManager, SignedOutcome};
use backit::types::{Address, Error};
use ed25519_dalek::{Signer, SigningKey};
use rand::RngCore;

fn addr(tag: u8) -> Address {
    Address::new(vec![tag; 32])
}

/// A random Ed25519 key pair: (secret seed, public key).
fn gen_keypair() -> ([u8; 32], [u8; 32]) {
    let mut seed = [0u8; 32];
    rand::thread_rng().fill_bytes(&mut seed);
    let signing_key = SigningKey::from_bytes(&seed);
    (seed, signing_key.verifying_key().to_bytes())
}

/// Signs the canonical message of a report.
fn sign_outcome(secret: &[u8; 32], call_id: u64, outcome: u32, price: i128, timestamp: u64) -> [u8; 64] {
    let msg = build_message(call_id, outcome, price, timestamp);
    SigningKey::from_bytes(secret).sign(&msg).to_bytes()
}

fn report(secret: &[u8; 32], pubkey: [u8; 32], call_id: u64, outcome: u32, price: i128, timestamp: u64) -> SignedOutcome {
    SignedOutcome {
        call_id,
        outcome,
        price,
        timestamp,
        oracle_pubkey: pubkey,
        signature: sign_outcome(secret, call_id, outcome, price, timestamp),
    }
}

/// A manager with a single oracle and quorum 1: (manager, admin, secret, public key).
fn setup_single_oracle() -> (OutcomeManager, Address, [u8; 32], [u8; 32]) {
    let admin = addr(1);
    let (secret, pubkey) = gen_keypair();
    let mut manager = OutcomeManager::new();
    manager.initialize(admin.clone(), &vec![pubkey], 1).unwrap();
    (manager, admin, secret, pubkey)
}

fn setup_oracles(n: usize, quorum: u32) -> (OutcomeManager, Address, Vec<([u8; 32], [u8; 32])>) {
    let admin = addr(1);
    let keys: Vec<([u8; 32], [u8; 32])> = (0..n).map(|_| gen_keypair()).collect();
    let mut manager = OutcomeManager::new();
    let publics: Vec<[u8; 32]> = keys.iter().map(|k| k.1).collect();
    manager.initialize(admin.clone(), &publics, quorum).unwrap();
    (manager, admin, keys)
}

#[test]
fn test_initialize_success() {
    let (_, pubkey) = gen_keypair();
    let mut manager = OutcomeManager::new();
    manager.initialize(addr(1), &vec![pubkey], 1).unwrap();
    assert_eq!(manager.get_quorum().unwrap(), 1);
    assert!(manager.is_oracle(&pubkey).unwrap());
}

#[test]
fn test_initialize_twice_fails() {
    let (mut manager, admin, _, pubkey) = setup_single_oracle();
    assert_eq!(manager.initialize(admin, &vec![pubkey], 1), Err(Error::AlreadyInitialized));
}

#[test]
fn test_initialize_quorum_zero_fails() {
    let (_, pubkey) = gen_keypair();
    let mut manager = OutcomeManager::new();
    assert_eq!(manager.initialize(addr(1), &vec![pubkey], 0), Err(Error::InvalidQuorum));
    assert_eq!(manager.initialize(addr(1), &vec![pubkey], 2), Err(Error::InvalidQuorum));
    assert_eq!(manager.get_quorum(), Err(Error::NotInitialized));
    assert_eq!(manager.is_oracle(&pubkey), Err(Error::NotInitialized));
}

#[test]
fn test_quorum_reached_with_two_oracles() {
    let (mut manager, _, keys) = setup_oracles(2, 2);
    let (call_id, outcome, price, ts) = (42u64, 1u32, 150_000_000i128, 9000u64);
    let first = manager.submit_outcome(&report(&keys[0].0, keys[0].1, call_id, outcome, price, ts)).unwrap();
    assert_eq!(first, None);
    let second = manager.submit_outcome(&report(&keys[1].0, keys[1].1, call_id, outcome, price, ts)).unwrap();
    assert!(second.is_some());
    let final_outcome = manager.get_outcome(call_id).unwrap();
    assert_eq!(final_outcome.outcome, outcome);
    assert_eq!(final_outcome.price, price);
    assert_eq!(final_outcome.timestamp, ts);
    assert_eq!(second, Some(final_outcome));
}

#[test]
fn test_submit_unauthorized_oracle_fails() {
    let (mut manager, _, _, _) = setup_single_oracle();
    let (secret2, pubkey2) = gen_keypair();
    let r = manager.submit_outcome(&report(&secret2, pubkey2, 1, 1, 100, 9000));
    assert_eq!(r, Err(Error::UnauthorizedOracle));
}

#[test]
fn test_add_remove_oracle() {
    let (mut manager, admin, _, _) = setup_single_oracle();
    let (_, new_pubkey) = gen_keypair();
    manager.add_oracle(&admin, new_pubkey).unwrap();
    assert!(manager.is_oracle(&new_pubkey).unwrap());
    manager.remove_oracle(&admin, new_pubkey).unwrap();
    assert!(!manager.is_oracle(&new_pubkey).unwrap());
}

#[test]
fn test_set_quorum() {
    let (mut manager, admin, _, _) = setup_single_oracle();
    let (_, pubkey2) = gen_keypair();
    manager.add_oracle(&admin, pubkey2).unwrap();
    manager.set_quorum(&admin, 2).unwrap();
    assert_eq!(manager.get_quorum().unwrap(), 2);
    assert_eq!(manager.set_quorum(&admin, 3), Err(Error::InvalidQuorum));
    assert_eq!(manager.set_quorum(&admin, 0), Err(Error::InvalidQuorum));
    assert_eq!(manager.get_quorum().unwrap(), 2);
}

#[test]
fn test_set_admin() {
    let (mut manager, admin, _, _) = setup_single_oracle();
    let new_admin = addr(9);
    manager.set_admin(&admin, new_admin.clone()).unwrap();
    assert_eq!(manager.get_admin(), Some(new_admin.clone()));
    assert_eq!(manager.set_quorum(&admin, 1), Err(Error::Unauthorized));
    assert_eq!(manager.set_quorum(&new_admin, 1), Ok(()));
}

#[test]
fn admin_operations_check_the_caller() {
    let (mut manager, _, _, pubkey) = setup_single_oracle();
    let stranger = addr(7);
    assert_eq!(manager.add_oracle(&stranger, [5u8; 32]), Err(Error::Unauthorized));
    assert_eq!(manager.remove_oracle(&stranger, pubkey), Err(Error::Unauthorized));
    assert_eq!(manager.set_admin(&stranger, stranger.clone()), Err(Error::Unauthorized));
    assert!(manager.is_oracle(&pubkey).unwrap());
    let mut fresh = OutcomeManager::new();
    assert_eq!(fresh.add_oracle(&stranger, pubkey), Err(Error::NotInitialized));
}

#[test]
fn duplicate_keys_count_once() {
    let (_, pubkey) = gen_keypair();
    let mut manager = OutcomeManager::new();
    manager.initialize(addr(1), &vec![pubkey, pubkey], 2).unwrap();
    assert_eq!(manager.set_quorum(&addr(1), 2), Err(Error::InvalidQuorum));
    manager.add_oracle(&addr(1), pubkey).unwrap();
    manager.remove_oracle(&addr(1), pubkey).unwrap();
    assert!(!manager.is_oracle(&pubkey).unwrap());
}

#[test]
fn test_get_outcome_unsettled_panics() {
    let (manager, _, _, _) = setup_single_oracle();
    assert_eq!(manager.get_outcome(999), Err(Error::CallNotSettled));
}

#[test]
fn quorum_is_reached_exactly_on_the_threshold_vote() {
    let (mut manager, _, keys) = setup_oracles(4, 3);
    for i in 0..2 {
        let r = manager.submit_outcome(&report(&keys[i].0, keys[i].1, 5, 2, 77, 100)).unwrap();
        assert_eq!(r, None);
        assert_eq!(manager.get_outcome(5), Err(Error::CallNotSettled));
    }
    let r = manager.submit_outcome(&report(&keys[2].0, keys[2].1, 5, 2, 77, 100)).unwrap();
    assert_eq!(r.map(|o| (o.call_id, o.outcome, o.price, o.timestamp)), Some((5, 2, 77, 100)));
    let late = manager.submit_outcome(&report(&keys[3].0, keys[3].1, 5, 2, 77, 100));
    assert_eq!(late, Err(Error::AlreadySettled));
}

#[test]
fn different_candidates_tally_separately() {
    let (mut manager, _, keys) = setup_oracles(4, 2);
    assert_eq!(manager.submit_outcome(&report(&keys[0].0, keys[0].1, 8, 1, 100, 50)).unwrap(), None);
    // Same outcome, another price: a different candidate.
    assert_eq!(manager.submit_outcome(&report(&keys[1].0, keys[1].1, 8, 1, 101, 50)).unwrap(), None);
    // Same outcome and price, another timestamp: a different candidate too.
    assert_eq!(manager.submit_outcome(&report(&keys[2].0, keys[2].1, 8, 1, 100, 51)).unwrap(), None);
    assert_eq!(manager.get_outcome(8), Err(Error::CallNotSettled));
    let done = manager.submit_outcome(&report(&keys[3].0, keys[3].1, 8, 1, 101, 50)).unwrap().unwrap();
    assert_eq!(done.price, 101);
    // Votes on another market do not count here.
    assert_eq!(manager.submit_outcome(&report(&keys[0].0, keys[0].1, 9, 1, 101, 50)).unwrap(), None);
}

#[test]
fn finalized_market_rejects_every_candidate() {
    let (mut manager, _, keys) = setup_oracles(3, 1);
    manager.submit_outcome(&report(&keys[0].0, keys[0].1, 3, 1, 10, 10)).unwrap().unwrap();
    let other = manager.submit_outcome(&report(&keys[1].0, keys[1].1, 3, 2, 99, 11));
    assert_eq!(other, Err(Error::AlreadySettled));
    let same = manager.submit_outcome(&report(&keys[2].0, keys[2].1, 3, 1, 10, 10));
    assert_eq!(same, Err(Error::AlreadySettled));
    assert_eq!(manager.get_outcome(3).unwrap().outcome, 1);
}

#[test]
fn second_submission_by_the_same_oracle_is_rejected() {
    let (mut manager, _, keys) = setup_oracles(3, 3);
    manager.submit_outcome(&report(&keys[0].0, keys[0].1, 4, 1, 10, 10)).unwrap();
    let again = manager.submit_outcome(&report(&keys[0].0, keys[0].1, 4, 1, 10, 10));
    assert_eq!(again, Err(Error::DuplicateSubmission));
    let changed = manager.submit_outcome(&report(&keys[0].0, keys[0].1, 4, 2, 20, 30));
    assert_eq!(changed, Err(Error::DuplicateSubmission));
    // The same oracle may still vote on another market.
    assert_eq!(manager.submit_outcome(&report(&keys[0].0, keys[0].1, 6, 1, 10, 10)), Ok(None));
}

#[test]
fn invalid_outcome_code_is_rejected() {
    let (mut manager, _, secret, pubkey) = setup_single_oracle();
    assert_eq!(manager.submit_outcome(&report(&secret, pubkey, 1, 3, 10, 10)), Err(Error::InvalidOutcome));
    assert_eq!(manager.submit_outcome(&report(&secret, pubkey, 1, 0, 10, 10)), Err(Error::InvalidOutcome));
    assert_eq!(manager.get_outcome(1), Err(Error::CallNotSettled));
}

#[test]
fn flipped_signature_bits_are_rejected_without_effect() {
    let (mut manager, _, secret, pubkey) = setup_single_oracle();
    let good = report(&secret, pubkey, 12, 2, -5, 77);
    for bit in [0usize, 7, 100, 255, 300, 511] {
        let mut bad = good;
        bad.signature[bit / 8] ^= 1 << (bit % 8);
        assert_eq!(manager.submit_outcome(&bad), Err(Error::InvalidSignature));
    }
    // A signature over another message: one bit of the price differs.
    let mut other = good;
    other.price ^= 1;
    assert_eq!(manager.submit_outcome(&other), Err(Error::InvalidSignature));
    let mut late = good;
    late.timestamp ^= 1 << 40;
    assert_eq!(manager.submit_outcome(&late), Err(Error::InvalidSignature));
    // Nothing was recorded: the oracle's genuine report is still accepted.
    assert_eq!(manager.get_outcome(12), Err(Error::CallNotSettled));
    assert!(manager.submit_outcome(&good).unwrap().is_some());
}

#[test]
fn claims_are_recorded_once() {
    let (mut manager, admin, secret, pubkey) = setup_single_oracle();
    let staker = addr(40);
    assert_eq!(manager.claim_payout(77, &staker, 40, 80, 20), Err(Error::CallNotSettled));
    manager.submit_outcome(&report(&secret, pubkey, 77, 1, 1, 1)).unwrap();
    assert!(!manager.has_claimed(77, &staker));
    assert_eq!(manager.claim_payout(77, &staker, 0, 80, 20), Err(Error::NothingToClaim));
    assert_eq!(manager.claim_payout(77, &staker, 40, 0, 20), Err(Error::InvalidWinningPool));
    assert_eq!(manager.claim_payout(77, &staker, i128::MAX, 1, 2), Err(Error::ArithmeticError));
    assert!(!manager.has_claimed(77, &staker));
    assert_eq!(manager.claim_payout(77, &staker, 40, 80, 20), Ok(50));
    assert!(manager.has_claimed(77, &staker));
    assert_eq!(manager.claim_payout(77, &staker, 40, 80, 20), Err(Error::AlreadyClaimed));
    assert_eq!(manager.claim_payout(77, &staker, 1, 1, 1), Err(Error::AlreadyClaimed));
    assert_eq!(manager.claim_payout(77, &addr(41), 40, 80, 20), Ok(50));
    assert_eq!(manager.mark_settled(&admin, 77), Ok(()));
    assert_eq!(manager.mark_settled(&admin, 78), Err(Error::CallNotFinalized));
    assert_eq!(manager.mark_settled(&staker, 77), Err(Error::Unauthorized));
}

#[test]
fn submit_before_initialize_fails() {
    let (secret, pubkey) = gen_keypair();
    let mut manager = OutcomeManager::new();
    assert_eq!(manager.submit_outcome(&report(&secret, pubkey, 1, 1, 1, 1)), Err(Error::NotInitialized));
}

#[test]
fn require_admin_names_the_failure() {
    let mut manager = OutcomeManager::new();
    assert_eq!(manager.require_admin(&addr(1)), Some(Error::NotInitialized));
    assert_eq!(manager.get_admin(), None);
    manager.initialize(addr(1), &vec![[3u8; 32]], 1).unwrap();
    assert_eq!(manager.require_admin(&addr(1)), None);
    assert_eq!(manager.require_admin(&addr(2)), Some(Error::Unauthorized));
}
