use fee_distributor::asset::{aggregate, Asset, AssetInfo};
use fee_distributor::distributor::{FeeDistributor, EPOCH_CREATION_REPLY_ID};
use fee_distributor::epoch::EpochConfig;
use fee_distributor::error::ContractError;
use fee_distributor::share::{reward, SHARE_ONE};

const T0: u64 = 1_000_000;
const DAY: u64 = 86_400;

fn uusd() -> AssetInfo {
    AssetInfo::NativeToken { denom: "uusd".to_string() }
}

fn uwhale() -> AssetInfo {
    AssetInfo::NativeToken { denom: "uwhale".to_string() }
}

fn coins(info: AssetInfo, amount: u128) -> Vec<Asset> {
    vec![Asset { info, amount }]
}

fn setup(grace_period: u64) -> FeeDistributor {
    FeeDistributor::new(
        "owner".to_string(),
        "bonding".to_string(),
        "collector".to_string(),
        grace_period,
        EpochConfig { duration: DAY, genesis_epoch: T0 },
    )
    .unwrap()
}

/// Creates the next epoch at its earliest time and confirms `fees` as forwarded.
fn next_epoch(d: &mut FeeDistributor, fees: Vec<Asset>) -> u64 {
    let now = match d.current_epoch() {
        Some(e) => e.start_time + DAY,
        None => T0,
    };
    let id = d.create_new_epoch(now).unwrap();
    d.on_forward_confirmed(EPOCH_CREATION_REPLY_ID, Some(fees)).unwrap();
    id
}

fn available(d: &FeeDistributor, id: u64, info: &AssetInfo) -> u128 {
    d.get_epoch(id).unwrap().available_of(info)
}

fn amount(assets: &[Asset], info: &AssetInfo) -> u128 {
    assets.iter().filter(|a| a.info.same(info)).map(|a| a.amount).sum()
}

#[test]
fn genesis_then_epoch_after_full_duration() {
    let mut d = setup(2);
    assert_eq!(next_epoch(&mut d, vec![]), 0);
    assert_eq!(d.current_epoch().unwrap().start_time, T0);
    assert_eq!(d.create_new_epoch(T0 + DAY - 1), Err(ContractError::CurrentEpochNotExpired));
    assert!(d.pending.is_none());
    assert_eq!(d.create_new_epoch(T0 + DAY), Ok(1));
    d.on_forward_confirmed(EPOCH_CREATION_REPLY_ID, Some(vec![])).unwrap();
    let e = d.current_epoch().unwrap();
    assert_eq!(e.id, 1);
    assert_eq!(e.start_time, T0 + DAY);
}

#[test]
fn epoch_ids_count_up_from_zero() {
    let mut d = setup(3);
    for expected in 0..6u64 {
        assert_eq!(next_epoch(&mut d, coins(uusd(), 10)), expected);
    }
    for (i, e) in d.epochs.iter().enumerate() {
        assert_eq!(e.id, i as u64);
    }
}

#[test]
fn quarter_share_claims_a_quarter() {
    let mut d = setup(2);
    next_epoch(&mut d, vec![]);
    next_epoch(&mut d, coins(uusd(), 100));
    let share = SHARE_ONE / 4;
    let transfers = d.claim(&"alice".to_string(), share).unwrap();
    assert_eq!(transfers.len(), 1);
    assert!(transfers[0].info.same(&uusd()));
    assert_eq!(transfers[0].amount, 25);
    let e = d.get_epoch(1).unwrap();
    assert_eq!(e.available_of(&uusd()), 75);
    assert_eq!(e.claimed_of(&uusd()), 25);
    assert_eq!(e.total_of(&uusd()), 100);
    assert_eq!(d.last_claimed_epoch(&"alice".to_string()), Some(1));
}

#[test]
fn claimable_window_and_forwarded_epochs() {
    let mut d = setup(2);
    for _ in 0..6 {
        next_epoch(&mut d, coins(uusd(), 100));
    }
    assert_eq!(d.claimable_epochs(), vec![5, 4]);
    for id in 0..4 {
        assert_eq!(available(&d, id, &uusd()), 0);
    }
    // each epoch receives its own 100 and what the epoch two before it still had
    assert_eq!(available(&d, 2, &uusd()), 0);
    assert_eq!(d.get_epoch(2).unwrap().total_of(&uusd()), 200);
    assert_eq!(available(&d, 4, &uusd()), 300);
    assert_eq!(available(&d, 5, &uusd()), 300);
}

#[test]
fn shrinking_grace_period_forwards_dropped_balances() {
    let mut d = setup(3);
    for fees in [10u128, 0, 0, 30, 40, 0] {
        next_epoch(&mut d, coins(uusd(), fees));
    }
    assert_eq!(d.claimable_epochs(), vec![5, 4, 3]);
    let a3 = available(&d, 3, &uusd());
    let a4 = available(&d, 4, &uusd());
    assert_eq!((a3, a4), (40, 40));
    assert_eq!(available(&d, 5, &uusd()), 0);
    d.update_config(&"owner".to_string(), None, None, None, Some(1)).unwrap();
    assert_eq!(d.config.grace_period, 1);
    assert_eq!(available(&d, 3, &uusd()), 0);
    assert_eq!(available(&d, 4, &uusd()), 0);
    let p = d.pending.as_ref().unwrap();
    assert_eq!(p.id, 6);
    d.on_forward_confirmed(EPOCH_CREATION_REPLY_ID, Some(coins(uusd(), 7))).unwrap();
    assert_eq!(d.claimable_epochs(), vec![6]);
    let e6 = d.get_epoch(6).unwrap();
    assert_eq!(e6.total_of(&uusd()), a3 + a4 + 7);
    assert_eq!(e6.available_of(&uusd()), a3 + a4 + 7);
}

#[test]
fn growing_grace_period_forwards_nothing() {
    let mut d = setup(1);
    next_epoch(&mut d, coins(uusd(), 5));
    next_epoch(&mut d, coins(uusd(), 5));
    d.update_config(&"owner".to_string(), None, None, None, Some(3)).unwrap();
    assert!(d.pending.is_none());
    assert_eq!(d.claimable_epochs(), vec![1, 0]);
}

#[test]
fn second_claim_has_nothing() {
    let mut d = setup(2);
    next_epoch(&mut d, coins(uusd(), 100));
    next_epoch(&mut d, coins(uusd(), 100));
    let alice = "alice".to_string();
    let first = d.claim(&alice, SHARE_ONE / 2).unwrap();
    assert_eq!(amount(&first, &uusd()), 100);
    let before: Vec<u128> = (0..2).map(|id| available(&d, id, &uusd())).collect();
    assert_eq!(d.claim(&alice, SHARE_ONE / 2), Err(ContractError::NothingToClaim));
    let after: Vec<u128> = (0..2).map(|id| available(&d, id, &uusd())).collect();
    assert_eq!(before, after);
    assert_eq!(d.last_claimed_epoch(&alice), Some(1));
}

#[test]
fn last_claimed_epoch_moves_forward() {
    let mut d = setup(2);
    next_epoch(&mut d, coins(uusd(), 100));
    let alice = "alice".to_string();
    d.claim(&alice, SHARE_ONE / 10).unwrap();
    assert_eq!(d.last_claimed_epoch(&alice), Some(0));
    next_epoch(&mut d, coins(uusd(), 100));
    let t = d.claim(&alice, SHARE_ONE / 10).unwrap();
    assert_eq!(amount(&t, &uusd()), 10);
    assert_eq!(d.last_claimed_epoch(&alice), Some(1));
}

#[test]
fn rewards_are_aggregated_per_asset() {
    let mut d = setup(3);
    next_epoch(&mut d, vec![Asset { info: uusd(), amount: 100 }, Asset { info: uwhale(), amount: 40 }]);
    next_epoch(&mut d, coins(uusd(), 200));
    let t = d.claim(&"bob".to_string(), SHARE_ONE / 2).unwrap();
    assert_eq!(t.len(), 2);
    assert_eq!(amount(&t, &uusd()), 150);
    assert_eq!(amount(&t, &uwhale()), 20);
}

#[test]
fn reward_above_available_is_rejected() {
    let mut d = setup(2);
    next_epoch(&mut d, coins(uusd(), 100));
    d.claim(&"alice".to_string(), SHARE_ONE).unwrap();
    assert_eq!(available(&d, 0, &uusd()), 0);
    assert_eq!(d.claim(&"bob".to_string(), SHARE_ONE / 2), Err(ContractError::InvalidReward));
    assert_eq!(d.get_epoch(0).unwrap().claimed_of(&uusd()), 100);
    assert_eq!(d.last_claimed_epoch(&"bob".to_string()), None);
}

#[test]
fn claimable_matches_claim() {
    let mut d = setup(2);
    next_epoch(&mut d, coins(uusd(), 999));
    let share = SHARE_ONE / 3;
    let projected = d.claimable(&"carol".to_string(), share).unwrap();
    assert_eq!(amount(&projected, &uusd()), 332);
    assert_eq!(available(&d, 0, &uusd()), 999);
    let paid = d.claim(&"carol".to_string(), share).unwrap();
    assert_eq!(amount(&paid, &uusd()), 332);
}

#[test]
fn claim_without_epochs_has_nothing() {
    let mut d = setup(2);
    assert_eq!(d.claim(&"alice".to_string(), SHARE_ONE), Err(ContractError::NothingToClaim));
}

#[test]
fn reward_rounds_toward_zero() {
    assert_eq!(reward(100, SHARE_ONE / 4), 25);
    assert_eq!(reward(10, SHARE_ONE / 3), 3);
    assert_eq!(reward(7, SHARE_ONE), 7);
    assert_eq!(reward(7, 0), 0);
    assert_eq!(reward(u128::MAX, SHARE_ONE), u128::MAX);
}

#[test]
fn update_config_requires_owner() {
    let mut d = setup(2);
    let r = d.update_config(&"mallory".to_string(), Some("mallory".to_string()), None, None, None);
    assert_eq!(r, Err(ContractError::Unauthorized));
    assert_eq!(d.config.owner, "owner");
}

#[test]
fn update_config_changes_addresses() {
    let mut d = setup(2);
    d.update_config(
        &"owner".to_string(),
        Some("new_owner".to_string()),
        Some("new_bonding".to_string()),
        None,
        None,
    )
    .unwrap();
    assert_eq!(d.config.owner, "new_owner");
    assert_eq!(d.config.bonding_contract_addr, "new_bonding");
    assert_eq!(d.config.fee_collector_addr, "collector");
}

#[test]
fn grace_period_must_be_in_range() {
    let mk = |g| {
        FeeDistributor::new(
            "o".to_string(),
            "b".to_string(),
            "c".to_string(),
            g,
            EpochConfig { duration: DAY, genesis_epoch: T0 },
        )
    };
    assert!(matches!(mk(0), Err(ContractError::InvalidGracePeriod)));
    assert!(matches!(mk(11), Err(ContractError::InvalidGracePeriod)));
    assert!(mk(10).is_ok());
    let mut d = setup(2);
    assert_eq!(
        d.update_config(&"owner".to_string(), None, None, None, Some(0)),
        Err(ContractError::InvalidGracePeriod)
    );
    assert_eq!(d.config.grace_period, 2);
}

#[test]
fn confirmation_errors() {
    let mut d = setup(2);
    assert_eq!(
        d.on_forward_confirmed(EPOCH_CREATION_REPLY_ID, Some(vec![])),
        Err(ContractError::CannotReadEpoch)
    );
    d.create_new_epoch(T0).unwrap();
    assert_eq!(d.on_forward_confirmed(7, Some(vec![])), Err(ContractError::UnknownReplyId(7)));
    assert_eq!(d.on_forward_confirmed(EPOCH_CREATION_REPLY_ID, None), Err(ContractError::CannotReadEpoch));
    assert!(d.pending.is_some());
    assert!(d.epochs.is_empty());
}

#[test]
fn confirmation_overflow_leaves_state() {
    let mut d = setup(2);
    d.create_new_epoch(T0).unwrap();
    let fees = vec![Asset { info: uusd(), amount: u128::MAX }, Asset { info: uusd(), amount: 1 }];
    assert_eq!(d.on_forward_confirmed(EPOCH_CREATION_REPLY_ID, Some(fees)), Err(ContractError::Overflow));
    assert!(d.pending.is_some());
    assert!(d.epochs.is_empty());
}

#[test]
fn aggregate_sums_by_asset() {
    let token = AssetInfo::Token { contract_addr: "uusd".to_string() };
    let a = vec![Asset { info: uusd(), amount: 5 }, Asset { info: token.duplicate(), amount: 3 }];
    let b = vec![Asset { info: uusd(), amount: 7 }];
    let s = aggregate(&a, &b).unwrap();
    assert_eq!(s.len(), 2);
    assert_eq!(amount(&s, &uusd()), 12);
    assert_eq!(amount(&s, &token), 3);
    assert!(aggregate(&coins(uusd(), u128::MAX), &coins(uusd(), 1)).is_none());
    assert_eq!(amount(&aggregate(&coins(uusd(), u128::MAX), &vec![]).unwrap(), &uusd()), u128::MAX);
}
