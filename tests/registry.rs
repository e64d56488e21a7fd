use backit::ledger::CallOutcome;
use backit::registry::{Call, CallRegistry};
use backit::types::{Address, Error};

fn addr(tag: u8) -> Address {
    Address::new(vec![tag; 32])
}

/// A fresh ledger with its admin, outcome manager and a call creator.
fn create_test_env() -> (CallRegistry, Address, Address, Address) {
    (CallRegistry::new(), addr(1), addr(2), addr(3))
}

fn open_call(registry: &mut CallRegistry, creator: &Address, end_ts: u64, now: u64) -> Call {
    registry
        .create_call(
            creator,
            &addr(10),
            100_000_000,
            end_ts,
            &addr(11),
            &b"USDC/XLM".to_vec(),
            &b"QmXxxx".to_vec(),
            now,
        )
        .unwrap()
}

#[test]
fn test_initialize() {
    let (mut registry, admin, outcome_manager, _) = create_test_env();
    registry.initialize(admin.clone(), outcome_manager.clone()).unwrap();
    let config = registry.get_config().unwrap();
    assert_eq!(config.admin, admin);
    assert_eq!(config.outcome_manager, outcome_manager);
}

#[test]
fn test_test_initialize_twice_fails() {
    let (mut registry, admin, outcome_manager, _) = create_test_env();
    registry.initialize(admin.clone(), outcome_manager.clone()).unwrap();
    assert_eq!(registry.initialize(admin, outcome_manager), Err(Error::AlreadyInitialized));
}

#[test]
fn test_create_call_success() {
    let (mut registry, admin, outcome_manager, creator) = create_test_env();
    registry.initialize(admin, outcome_manager).unwrap();
    let call = open_call(&mut registry, &creator, 2000, 1000);
    assert_eq!(call.id, 1);
    assert_eq!(call.creator, creator);
    assert_eq!(call.stake_amount, 100_000_000);
    assert_eq!(call.total_up_stake, 0);
    assert_eq!(call.total_down_stake, 0);
    assert_eq!(call.outcome, CallOutcome::Unresolved);
    assert_eq!(call.settled, false);
    assert_eq!(call.created_at, 1000);
    assert_eq!(call.pair_id, b"USDC/XLM".to_vec());
    assert_eq!(call.ipfs_cid, b"QmXxxx".to_vec());
}

#[test]
fn test_create_call_invalid_stake() {
    let (mut registry, admin, outcome_manager, creator) = create_test_env();
    registry.initialize(admin, outcome_manager).unwrap();
    let r = registry.create_call(
        &creator,
        &addr(10),
        -100_000_000,
        2000,
        &addr(11),
        &b"USDC/XLM".to_vec(),
        &b"QmXxxx".to_vec(),
        1000,
    );
    assert_eq!(r.unwrap_err(), Error::InvalidAmount);
    assert_eq!(registry.get_call_count(), 0);
}

#[test]
fn test_create_call_past_timestamp() {
    let (mut registry, admin, outcome_manager, creator) = create_test_env();
    registry.initialize(admin, outcome_manager).unwrap();
    let r = registry.create_call(
        &creator,
        &addr(10),
        100_000_000,
        500,
        &addr(11),
        &b"USDC/XLM".to_vec(),
        &b"QmXxxx".to_vec(),
        1000,
    );
    assert_eq!(r.unwrap_err(), Error::InvalidDeadline);
}

#[test]
fn create_call_deadline_equal_to_now_is_rejected() {
    let (mut registry, _, _, creator) = create_test_env();
    let r = registry.create_call(&creator, &addr(10), 1, 1000, &addr(11), &vec![], &vec![], 1000);
    assert_eq!(r.unwrap_err(), Error::InvalidDeadline);
}

#[test]
fn test_stake_on_call_up() {
    let (mut registry, admin, outcome_manager, creator) = create_test_env();
    let staker = addr(20);
    registry.initialize(admin, outcome_manager).unwrap();
    let call = open_call(&mut registry, &creator, 2000, 1000);
    let updated = registry.stake_on_call(&staker, call.id, 50_000_000, 1, 1000).unwrap();
    assert_eq!(updated.total_up_stake, 50_000_000);
    assert_eq!(updated.total_down_stake, 0);
}

#[test]
fn test_stake_on_call_down() {
    let (mut registry, admin, outcome_manager, creator) = create_test_env();
    let staker = addr(20);
    registry.initialize(admin, outcome_manager).unwrap();
    let call = open_call(&mut registry, &creator, 2000, 1000);
    let updated = registry.stake_on_call(&staker, call.id, 30_000_000, 2, 1000).unwrap();
    assert_eq!(updated.total_up_stake, 0);
    assert_eq!(updated.total_down_stake, 30_000_000);
}

#[test]
fn test_stake_on_ended_call() {
    let (mut registry, admin, outcome_manager, creator) = create_test_env();
    let staker = addr(20);
    registry.initialize(admin, outcome_manager).unwrap();
    let call = open_call(&mut registry, &creator, 2000, 1000);
    let r = registry.stake_on_call(&staker, call.id, 50_000_000, 1, 3000);
    assert_eq!(r.unwrap_err(), Error::CallEnded);
}

#[test]
fn test_stake_invalid_position() {
    let (mut registry, admin, outcome_manager, creator) = create_test_env();
    let staker = addr(20);
    registry.initialize(admin, outcome_manager).unwrap();
    let call = open_call(&mut registry, &creator, 2000, 1000);
    let r = registry.stake_on_call(&staker, call.id, 50_000_000, 3, 1000);
    assert_eq!(r.unwrap_err(), Error::InvalidSide);
}

#[test]
fn stake_errors_come_in_order() {
    let (mut registry, admin, outcome_manager, creator) = create_test_env();
    let staker = addr(20);
    registry.initialize(admin, outcome_manager.clone()).unwrap();
    let call = open_call(&mut registry, &creator, 2000, 1000);
    assert_eq!(registry.stake_on_call(&staker, call.id, 0, 1, 1000).unwrap_err(), Error::InvalidAmount);
    assert_eq!(registry.stake_on_call(&staker, 7, 5, 1, 1000).unwrap_err(), Error::CallNotFound);
    assert_eq!(registry.stake_on_call(&staker, call.id, 5, 1, 2000).unwrap_err(), Error::CallEnded);
    registry.mark_settled(&outcome_manager, call.id).unwrap();
    assert_eq!(registry.stake_on_call(&staker, call.id, 5, 1, 1000).unwrap_err(), Error::CallSettled);
}

#[test]
fn stake_overflow_is_an_arithmetic_error() {
    let (mut registry, _, _, creator) = create_test_env();
    let call = open_call(&mut registry, &creator, 2000, 1000);
    registry.stake_on_call(&addr(20), call.id, i128::MAX, 1, 1000).unwrap();
    let r = registry.stake_on_call(&addr(21), call.id, 1, 1, 1000);
    assert_eq!(r.unwrap_err(), Error::ArithmeticError);
    assert_eq!(registry.get_call(call.id).unwrap().total_up_stake, i128::MAX);
}

#[test]
fn test_get_call() {
    let (mut registry, admin, outcome_manager, creator) = create_test_env();
    registry.initialize(admin, outcome_manager).unwrap();
    let created = open_call(&mut registry, &creator, 2000, 1000);
    let retrieved = registry.get_call(created.id).unwrap();
    assert_eq!(retrieved.id, created.id);
    assert_eq!(retrieved.creator, creator);
    assert_eq!(retrieved.stake_amount, 100_000_000);
}

#[test]
fn test_get_nonexistent_call() {
    let (mut registry, admin, outcome_manager, _) = create_test_env();
    registry.initialize(admin, outcome_manager).unwrap();
    assert_eq!(registry.get_call(999).unwrap_err(), Error::CallNotFound);
    assert_eq!(registry.get_call(0).unwrap_err(), Error::CallNotFound);
}

#[test]
fn test_get_call_stats() {
    let (mut registry, admin, outcome_manager, creator) = create_test_env();
    registry.initialize(admin, outcome_manager).unwrap();
    let call = open_call(&mut registry, &creator, 2000, 1000);
    registry.stake_on_call(&addr(20), call.id, 50_000_000, 1, 1000).unwrap();
    registry.stake_on_call(&addr(21), call.id, 30_000_000, 2, 1000).unwrap();
    let stats = registry.get_call_stats(call.id).unwrap();
    assert_eq!(stats.total_up_stake, 50_000_000);
    assert_eq!(stats.total_down_stake, 30_000_000);
    assert_eq!(stats.up_stake_count, 1);
    assert_eq!(stats.down_stake_count, 1);
    assert_eq!(stats.total_stakes, 2);
    assert_eq!(registry.get_call_stats(5).unwrap_err(), Error::CallNotFound);
}

#[test]
fn test_resolve_call() {
    let (mut registry, admin, outcome_manager, creator) = create_test_env();
    registry.initialize(admin, outcome_manager.clone()).unwrap();
    let call = open_call(&mut registry, &creator, 2000, 1000);
    let resolved = registry.resolve_call(&outcome_manager, call.id, 1, 150_000_000, 3000).unwrap();
    assert_eq!(resolved.outcome, CallOutcome::Up);
    assert_eq!(resolved.end_price, 150_000_000);
    assert_eq!(registry.get_call(call.id).unwrap().outcome, CallOutcome::Up);
}

#[test]
fn test_resolve_call_before_end() {
    let (mut registry, admin, outcome_manager, creator) = create_test_env();
    registry.initialize(admin, outcome_manager.clone()).unwrap();
    let call = open_call(&mut registry, &creator, 2000, 1000);
    let r = registry.resolve_call(&outcome_manager, call.id, 1, 150_000_000, 1000);
    assert_eq!(r.unwrap_err(), Error::CallNotEnded);
    assert_eq!(registry.get_call(call.id).unwrap().outcome, CallOutcome::Unresolved);
}

#[test]
fn resolve_call_errors() {
    let (mut registry, admin, outcome_manager, creator) = create_test_env();
    let call = open_call(&mut registry, &creator, 2000, 1000);
    assert_eq!(registry.resolve_call(&outcome_manager, call.id, 2, 1, 3000).unwrap_err(), Error::NotInitialized);
    registry.initialize(admin.clone(), outcome_manager.clone()).unwrap();
    assert_eq!(registry.resolve_call(&admin, call.id, 2, 1, 3000).unwrap_err(), Error::Unauthorized);
    assert_eq!(registry.resolve_call(&outcome_manager, 9, 2, 1, 3000).unwrap_err(), Error::CallNotFound);
    assert_eq!(registry.resolve_call(&outcome_manager, call.id, 0, 1, 3000).unwrap_err(), Error::InvalidOutcome);
    let down = registry.resolve_call(&outcome_manager, call.id, 2, 7, 2000).unwrap();
    assert_eq!(down.outcome, CallOutcome::Down);
}

#[test]
fn test_test_set_admin() {
    let (mut registry, admin, outcome_manager, _) = create_test_env();
    let new_admin = addr(30);
    registry.initialize(admin.clone(), outcome_manager).unwrap();
    registry.set_admin(&admin, new_admin.clone()).unwrap();
    assert_eq!(registry.get_config().unwrap().admin, new_admin);
    assert_eq!(registry.set_admin(&admin, addr(31)).unwrap_err(), Error::Unauthorized);
}

#[test]
fn test_set_outcome_manager() {
    let (mut registry, admin, outcome_manager, _) = create_test_env();
    let new_manager = addr(30);
    registry.initialize(admin.clone(), outcome_manager.clone()).unwrap();
    registry.set_outcome_manager(&admin, new_manager.clone()).unwrap();
    assert_eq!(registry.get_config().unwrap().outcome_manager, new_manager);
    assert_eq!(registry.set_outcome_manager(&outcome_manager, addr(31)).unwrap_err(), Error::Unauthorized);
}

#[test]
fn config_before_initialize_fails() {
    let (mut registry, admin, _, _) = create_test_env();
    assert_eq!(registry.get_config().unwrap_err(), Error::NotInitialized);
    assert_eq!(registry.set_admin(&admin, addr(31)).unwrap_err(), Error::NotInitialized);
}

#[test]
fn test_get_call_count() {
    let (mut registry, admin, outcome_manager, creator) = create_test_env();
    registry.initialize(admin, outcome_manager).unwrap();
    assert_eq!(registry.get_call_count(), 0);
    open_call(&mut registry, &creator, 2000, 1000);
    let second = open_call(&mut registry, &creator, 3000, 1000);
    assert_eq!(second.id, 2);
    assert_eq!(registry.get_call_count(), 2);
}

#[test]
fn test_get_staker_stake() {
    let (mut registry, admin, outcome_manager, creator) = create_test_env();
    let staker = addr(20);
    registry.initialize(admin, outcome_manager).unwrap();
    let call = open_call(&mut registry, &creator, 2000, 1000);
    registry.stake_on_call(&staker, call.id, 50_000_000, 1, 1000).unwrap();
    assert_eq!(registry.get_staker_stake(call.id, &staker, 1).unwrap(), 50_000_000);
    assert_eq!(registry.get_staker_stake(call.id, &staker, 2).unwrap(), 0);
    assert_eq!(registry.get_staker_stake(call.id, &staker, 4).unwrap_err(), Error::InvalidSide);
    assert_eq!(registry.get_staker_stake(8, &staker, 1).unwrap_err(), Error::CallNotFound);
}

#[test]
fn test_multiple_stakers() {
    let (mut registry, admin, outcome_manager, creator) = create_test_env();
    registry.initialize(admin, outcome_manager).unwrap();
    let call = open_call(&mut registry, &creator, 5000, 1000);
    registry.stake_on_call(&addr(20), call.id, 50_000_000, 1, 1000).unwrap();
    registry.stake_on_call(&addr(21), call.id, 30_000_000, 1, 1000).unwrap();
    registry.stake_on_call(&addr(22), call.id, 40_000_000, 2, 1000).unwrap();
    let updated = registry.get_call(call.id).unwrap();
    assert_eq!(updated.total_up_stake, 80_000_000);
    assert_eq!(updated.total_down_stake, 40_000_000);
}

#[test]
fn totals_equal_sum_of_balances() {
    let (mut registry, _, _, creator) = create_test_env();
    let call = open_call(&mut registry, &creator, 5000, 1000);
    let stakes: [(u8, i128, u32); 6] = [(20, 5, 1), (21, 7, 1), (20, 11, 1), (22, 3, 2), (20, 2, 2), (22, 1, 2)];
    for (who, amount, side) in stakes {
        registry.stake_on_call(&addr(who), call.id, amount, side, 1000).unwrap();
        let c = registry.get_call(call.id).unwrap();
        let up: i128 = c.up_stakes.iter().map(|e| e.amount).sum();
        let down: i128 = c.down_stakes.iter().map(|e| e.amount).sum();
        assert_eq!(c.total_up_stake, up);
        assert_eq!(c.total_down_stake, down);
    }
    assert_eq!(registry.get_staker_stake(call.id, &addr(20), 1).unwrap(), 16);
    assert_eq!(registry.get_staker_stake(call.id, &addr(22), 2).unwrap(), 4);
    let stats = registry.get_call_stats(call.id).unwrap();
    assert_eq!((stats.up_stake_count, stats.down_stake_count, stats.total_stakes), (2, 2, 4));
}

#[test]
fn calls_by_creator_and_by_staker() {
    let (mut registry, _, _, creator) = create_test_env();
    let other = addr(4);
    let first = open_call(&mut registry, &creator, 5000, 1000);
    let second = open_call(&mut registry, &other, 5000, 1000);
    let third = open_call(&mut registry, &creator, 6000, 1000);
    let mine: Vec<u64> = registry.get_calls_by_creator(&creator).iter().map(|c| c.id).collect();
    assert_eq!(mine, vec![first.id, third.id]);
    assert!(registry.get_calls_by_creator(&addr(9)).is_empty());

    let staker = addr(20);
    registry.stake_on_call(&staker, third.id, 5, 1, 1000).unwrap();
    registry.stake_on_call(&staker, second.id, 5, 2, 1000).unwrap();
    registry.stake_on_call(&staker, third.id, 5, 2, 1000).unwrap();
    let staked: Vec<u64> = registry.get_staker_calls(&staker).iter().map(|c| c.id).collect();
    assert_eq!(staked, vec![third.id, second.id]);
    assert!(registry.get_staker_calls(&creator).is_empty());
}

#[test]
fn mark_settled_needs_the_outcome_manager() {
    let (mut registry, admin, outcome_manager, creator) = create_test_env();
    registry.initialize(admin.clone(), outcome_manager.clone()).unwrap();
    let call = open_call(&mut registry, &creator, 2000, 1000);
    assert_eq!(registry.mark_settled(&admin, call.id).unwrap_err(), Error::Unauthorized);
    assert_eq!(registry.mark_settled(&outcome_manager, 3).unwrap_err(), Error::CallNotFound);
    registry.mark_settled(&outcome_manager, call.id).unwrap();
    assert!(registry.get_call(call.id).unwrap().settled);
}

#[test]
fn call_exists_tracks_created_ids() {
    let (mut registry, _, _, creator) = create_test_env();
    assert!(!registry.call_exists(1));
    open_call(&mut registry, &creator, 2000, 1000);
    assert!(registry.call_exists(1));
    assert!(!registry.call_exists(0));
    assert!(!registry.call_exists(2));
}
