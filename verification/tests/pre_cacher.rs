use solana_account::{AccountSharedData, WritableAccount};
use solana_clock::Epoch;
use solana_leader_precached::epoch_schedule::EpochSchedule;
use solana_leader_precached::leader_schedule::is_drawable;
use solana_leader_precached::leader_schedule_cache::LeaderScheduleCache;
use solana_leader_precached::pre_cacher::{
    compute_leader_schedule, leader_schedule_from_answer, LeaderSchedulePreCacher,
    PreCacherConfig, PreCacherError, PreCacherStats, ScheduleOutcome, StakeDataProvider, WaitStep,
    DEFAULT_WARMUP_SLOTS_BEFORE_BOUNDARY, POLL_INTERVAL_MS,
};
use solana_leader_precached::rpc_service::SlotLeaderRpcService;
use solana_leader_schedule::LeaderSchedule;
use solana_pubkey::Pubkey;
use solana_vote::vote_account::{VoteAccount, VoteAccountsHashMap};
use std::str::FromStr;
use std::sync::Arc;

fn key(n: u8) -> Pubkey {
    Pubkey::new_from_array([n; 32])
}

/// A vote account of the validator `n`.
fn account(n: u8) -> VoteAccount {
    let owner = Pubkey::from_str("Vote111111111111111111111111111111111111111").unwrap();
    let mut data = vec![0u8; 3731];
    data[0] = 1;
    data[4..36].copy_from_slice(&key(n).to_bytes());
    let mut account = AccountSharedData::new(1_000_000, data.len(), &owner);
    account.set_data_from_slice(&data);
    VoteAccount::try_from(account).unwrap()
}

/// Vote accounts at the addresses 101, 102, ... of the validators 1, 2, ... with the given stakes.
fn accounts(stakes: &[u64]) -> VoteAccountsHashMap {
    let mut accounts = VoteAccountsHashMap::default();
    for (i, stake) in stakes.iter().enumerate() {
        let n = i as u8 + 1;
        accounts.insert(key(n + 100), (*stake, account(n)));
    }
    accounts
}

/// Has the same stakes for each epoch below a bound.
struct Provider {
    stakes: Vec<u64>,
    bound: Epoch,
}

impl StakeDataProvider for Provider {
    fn get_epoch_vote_accounts(&self, epoch: Epoch) -> Option<VoteAccountsHashMap> {
        if epoch < self.bound {
            Some(accounts(&self.stakes))
        } else {
            None
        }
    }
}

fn flat(slots_per_epoch: u64) -> EpochSchedule {
    EpochSchedule {
        slots_per_epoch,
        leader_schedule_slot_offset: slots_per_epoch,
        warmup: false,
        first_normal_epoch: 0,
        first_normal_slot: 0,
    }
}

fn pre_cacher(stakes: &[u64], bound: Epoch) -> LeaderSchedulePreCacher<Provider> {
    LeaderSchedulePreCacher::new(
        LeaderScheduleCache::new(flat(200), 0),
        Arc::new(Provider { stakes: stakes.to_vec(), bound }),
        PreCacherConfig::default(),
    )
}

fn slots_of(outcome: &ScheduleOutcome) -> Vec<(Pubkey, Pubkey)> {
    match outcome {
        ScheduleOutcome::Computed(schedule) => {
            schedule.get_slot_leaders().map(|leader| (leader.id, leader.vote_address)).collect()
        }
        _ => panic!("no schedule"),
    }
}

#[test]
fn defaults() {
    assert_eq!(DEFAULT_WARMUP_SLOTS_BEFORE_BOUNDARY, 100);
    assert_eq!(POLL_INTERVAL_MS, 5);
    let config = PreCacherConfig::default();
    assert_eq!(config.warmup_slots_before_boundary, 100);
    assert_eq!(config.max_concurrent_tasks, 4);
    let made = pre_cacher(&[1], 1);
    assert_eq!(*made.config(), config);
    assert_eq!(*made.stats(), PreCacherStats::default());
    assert_eq!(made.stats().total_compute_duration_us, 0);
}

#[test]
fn messages() {
    assert_eq!(
        PreCacherError::MissingStakeData(7).message(),
        "Stake data missing for epoch 7"
    );
    assert_eq!(
        PreCacherError::CalculationFailed(0).message(),
        "Leader schedule calculation failed for epoch 0"
    );
    assert_eq!(
        PreCacherError::Timeout(u64::MAX).message(),
        "Epoch 18446744073709551615 calculation timed out"
    );
}

#[test]
fn window_is_the_end_of_each_epoch() {
    let made = pre_cacher(&[1], 10);
    for epoch in 0..3 {
        for index in 0..200 {
            let expected = if index >= 99 { Some(epoch + 1) } else { None };
            assert_eq!(made.should_warm_epoch(epoch * 200 + index), expected);
        }
    }
}

#[test]
fn window_in_warmup_epochs() {
    // Epoch 1 spans slots 32..=95
    let outside = solana_epoch_schedule::EpochSchedule::custom(256, 256, true);
    let epoch_schedule = EpochSchedule {
        slots_per_epoch: outside.slots_per_epoch,
        leader_schedule_slot_offset: outside.leader_schedule_slot_offset,
        warmup: outside.warmup,
        first_normal_epoch: outside.first_normal_epoch,
        first_normal_slot: outside.first_normal_slot,
    };
    let made = LeaderSchedulePreCacher::new(
        LeaderScheduleCache::new(epoch_schedule, 0),
        Arc::new(Provider { stakes: vec![1], bound: 10 }),
        PreCacherConfig { warmup_slots_before_boundary: 10, max_concurrent_tasks: 1 },
    );
    assert_eq!(made.should_warm_epoch(84), None);
    assert_eq!(made.should_warm_epoch(85), Some(2));
    assert_eq!(made.should_warm_epoch(95), Some(2));
    assert_eq!(made.should_warm_epoch(96), None);
    assert_eq!(made.should_warm_epoch(223), Some(3));
}

#[test]
fn window_longer_than_the_epoch_is_all_of_it() {
    let made = LeaderSchedulePreCacher::new(
        LeaderScheduleCache::new(flat(40), 0),
        Arc::new(Provider { stakes: vec![1], bound: 10 }),
        PreCacherConfig { warmup_slots_before_boundary: u64::MAX, max_concurrent_tasks: 1 },
    );
    assert_eq!(made.should_warm_epoch(0), Some(1));
    assert_eq!(made.should_warm_epoch(40), Some(2));
}

#[test]
fn slot_before_the_window_changes_nothing() {
    let mut made = pre_cacher(&[1], 10);
    assert!(!made.on_slot_processed(98));
    assert_eq!(*made.stats(), PreCacherStats::default());
    assert!(made.take_dispatched().is_empty());
    assert!(!made.is_inflight(1));
}

#[test]
fn many_slots_start_one_computation() {
    let mut made = pre_cacher(&[1], 10);
    let triggered: Vec<bool> = (99..200).map(|slot| made.on_slot_processed(slot)).collect();
    assert!(triggered[0]);
    assert!(triggered[1..].iter().all(|again| !again));
    assert_eq!(made.stats().triggered_count, 1);
    assert_eq!(made.stats().deduplicated_count, 100);
    assert_eq!(made.stats().already_cached_count, 0);
    assert!(made.is_inflight(1));
    assert_eq!(made.take_dispatched(), vec![1]);
    assert!(made.take_dispatched().is_empty());
}

#[test]
fn cached_epoch_is_not_computed_again() {
    let mut made = pre_cacher(&[1], 10);
    made.warm_epoch_sync(1).unwrap();
    for slot in 99..200 {
        assert_eq!(made.should_warm_epoch(slot), None);
        assert!(!made.on_slot_processed(slot));
    }
    assert_eq!(made.stats().already_cached_count, 101);
    assert_eq!(made.stats().triggered_count, 0);
    assert_eq!(made.stats().deduplicated_count, 0);
}

#[test]
fn failed_computation_is_retried() {
    let mut made = pre_cacher(&[1], 1);
    assert!(made.on_slot_processed(150));
    assert_eq!(made.take_dispatched(), vec![1]);
    made.complete_pre_cache_task(1, ScheduleOutcome::MissingStakes, 3);
    assert!(!made.is_inflight(1));
    assert_eq!(made.stats().missing_stakes_count, 1);
    assert!(made.on_slot_processed(151));
    assert_eq!(made.take_dispatched(), vec![1]);
    made.complete_pre_cache_task(1, ScheduleOutcome::Failed, 3);
    assert_eq!(made.stats().missing_stakes_count, 1);
    assert_eq!(made.stats().warmed_count, 0);
    assert_eq!(made.stats().total_compute_duration_us, 0);
    assert!(made.on_slot_processed(152));
    assert_eq!(made.stats().triggered_count, 3);
    assert!(!made.cache().has_epoch(1));
}

#[test]
fn computed_schedule_is_served() {
    let mut made = pre_cacher(&[1], 10);
    assert!(made.on_slot_processed(150));
    assert_eq!(made.wait_step(1, true), WaitStep::Sleep);
    assert_eq!(made.wait_step(1, false), WaitStep::Done(false));
    let provider = made.stake_provider();
    let outcome = compute_leader_schedule(&*provider, &flat(200), 1);
    made.complete_pre_cache_task(1, outcome, 41);
    assert_eq!(made.wait_step(1, true), WaitStep::Done(true));
    assert_eq!(made.wait_step(1, false), WaitStep::Done(true));
    assert_eq!(made.stats().warmed_count, 1);
    assert_eq!(made.stats().total_compute_duration_us, 41);
    assert_eq!(made.cache().max_epoch(), 1);
    assert!(!made.is_inflight(1));
    // The one validator with stake leads every slot of the epoch
    let leaders = SlotLeaderRpcService::new(made.cache_mut()).get_slot_leaders(200, 200).unwrap();
    assert!(leaders.iter().all(|leader| *leader == key(1)));
    assert_eq!(made.cache_mut().slot_leader_at(399).unwrap().vote_address, key(101));
}

#[test]
fn schedule_that_came_first_stays() {
    let mut made = pre_cacher(&[1], 10);
    assert!(made.on_slot_processed(150));
    made.warm_epoch_sync(1).unwrap();
    let first = made.cache_mut().get_epoch_leader_schedule(1).unwrap();
    made.complete_pre_cache_task(
        1,
        ScheduleOutcome::Computed(Arc::new(LeaderSchedule::default())),
        5,
    );
    assert_eq!(*made.cache_mut().get_epoch_leader_schedule(1).unwrap(), *first);
    assert_eq!(made.stats().warmed_count, 2);
}

#[test]
fn no_more_tasks_than_allowed() {
    let mut made = LeaderSchedulePreCacher::new(
        LeaderScheduleCache::new(flat(200), 0),
        Arc::new(Provider { stakes: vec![1], bound: 10 }),
        PreCacherConfig { warmup_slots_before_boundary: 100, max_concurrent_tasks: 2 },
    );
    for slot in [199, 399, 599, 799] {
        assert!(made.on_slot_processed(slot));
    }
    assert_eq!(made.take_dispatched(), vec![1, 2]);
    assert!(made.take_dispatched().is_empty());
    assert!(made.is_inflight(4));
    made.complete_pre_cache_task(2, ScheduleOutcome::Failed, 0);
    assert_eq!(made.take_dispatched(), vec![3]);
    made.complete_pre_cache_task(1, ScheduleOutcome::Failed, 0);
    made.complete_pre_cache_task(3, ScheduleOutcome::Failed, 0);
    assert_eq!(made.take_dispatched(), vec![4]);
    assert_eq!(made.stats().triggered_count, 4);
}

#[test]
fn dispatch_queues_without_asking() {
    let mut made = pre_cacher(&[1], 10);
    made.dispatch_pre_cache_task(5);
    assert_eq!(made.stats().triggered_count, 1);
    assert!(!made.is_inflight(5));
    assert_eq!(made.take_dispatched(), vec![5]);
}

#[test]
fn foreground_warming() {
    let mut made = pre_cacher(&[3, 1], 2);
    assert_eq!(made.warm_epoch_sync(1), Ok(()));
    assert!(made.cache().has_epoch(1));
    assert_eq!(made.stats().warmed_count, 1);
    assert_eq!(made.warm_epoch_sync(1), Ok(()));
    assert_eq!(made.stats().warmed_count, 1);
    assert_eq!(made.stats().already_cached_count, 1);
    assert_eq!(made.warm_epoch_sync(2), Err(PreCacherError::MissingStakeData(2)));
    assert!(!made.cache().has_epoch(2));
    assert_eq!(made.stats().missing_stakes_count, 0);
    assert_eq!(made.warm_epoch_from_answer(2, Some(accounts(&[4]))), Ok(()));
    assert!(made.cache().has_epoch(2));
    assert_eq!(made.warm_epoch_from_answer(3, None), Err(PreCacherError::MissingStakeData(3)));
    let outcome = leader_schedule_from_answer(Some(accounts(&[4])), 3, 200);
    assert_eq!(made.warm_epoch_with_outcome(3, outcome), Ok(()));
    assert!(made.cache().has_epoch(3));
    assert_eq!(made.stats().warmed_count, 3);
    assert_eq!(
        made.warm_epoch_with_outcome(4, ScheduleOutcome::Failed),
        Err(PreCacherError::CalculationFailed(4))
    );
}

#[test]
fn stakes_that_no_schedule_can_be_drawn_from() {
    let mut without_stake = pre_cacher(&[0, 0], 2);
    assert_eq!(without_stake.warm_epoch_sync(1), Err(PreCacherError::CalculationFailed(1)));
    let mut too_much = pre_cacher(&[u64::MAX, 1], 2);
    assert_eq!(too_much.warm_epoch_sync(1), Err(PreCacherError::CalculationFailed(1)));
    let mut nobody = pre_cacher(&[], 2);
    assert_eq!(nobody.warm_epoch_sync(1), Err(PreCacherError::CalculationFailed(1)));
    assert!(!nobody.cache().has_epoch(1));
    assert!(matches!(
        leader_schedule_from_answer(None, 0, 200),
        ScheduleOutcome::MissingStakes
    ));
}

#[test]
fn drawable_stakes() {
    assert!(is_drawable(&accounts(&[1]), 200, 4));
    assert!(is_drawable(&accounts(&[u64::MAX, 0]), 200, 4));
    assert!(is_drawable(&accounts(&[u64::MAX - 1, 1]), 200, 4));
    assert!(is_drawable(&accounts(&[1]), 0, 4));
    assert!(!is_drawable(&accounts(&[u64::MAX, 1]), 200, 4));
    assert!(!is_drawable(&accounts(&[0]), 200, 4));
    assert!(is_drawable(&accounts(&[1]), 201, 4));
    assert!(!is_drawable(&accounts(&[1]), 200, 0));
    assert!(!is_drawable(&accounts(&[1]), usize::MAX, 1));
}

#[test]
fn schedule_follows_from_the_vote_accounts() {
    let stakes = [5, 0, 7, 1];
    let one = slots_of(&leader_schedule_from_answer(Some(accounts(&stakes)), 3, 200));
    let other = slots_of(&leader_schedule_from_answer(Some(accounts(&stakes)), 3, 200));
    assert_eq!(one, other);
    assert_eq!(one.len(), 200);
    // Four slots in a row, for validators with stake, at the addresses of their vote accounts
    for (i, (id, vote_address)) in one.iter().enumerate() {
        assert_eq!(one[i], one[i - i % 4]);
        assert!([key(1), key(3), key(4)].contains(id));
        assert!([key(101), key(103), key(104)].contains(vote_address));
    }
    // What the outside crate draws for that epoch, and not for another
    let drawn = LeaderSchedule::new(
        &accounts(&stakes),
        3,
        200,
        solana_leader_schedule::NUM_CONSECUTIVE_LEADER_SLOTS,
    );
    let expected: Vec<(Pubkey, Pubkey)> =
        drawn.get_slot_leaders().map(|leader| (leader.id, leader.vote_address)).collect();
    assert_eq!(one, expected);
    let next = slots_of(&leader_schedule_from_answer(Some(accounts(&stakes)), 4, 200));
    assert_ne!(one, next);
    // In the foreground and in the background
    let provider = Provider { stakes: stakes.to_vec(), bound: 10 };
    assert_eq!(slots_of(&compute_leader_schedule(&provider, &flat(200), 3)), one);
}

#[test]
fn schedule_covers_whole_turns() {
    let stakes = [5, 7, 1];
    let cut = slots_of(&leader_schedule_from_answer(Some(accounts(&stakes)), 3, 50));
    let whole = slots_of(&leader_schedule_from_answer(Some(accounts(&stakes)), 3, 48));
    assert_eq!(cut.len(), 48);
    assert_eq!(cut, whole);
    assert_eq!(
        slots_of(&leader_schedule_from_answer(Some(accounts(&stakes)), 3, 202)).len(),
        200
    );
    assert!(slots_of(&leader_schedule_from_answer(Some(accounts(&stakes)), 3, 3)).is_empty());
}

#[test]
fn epochs_that_whole_turns_do_not_fill() {
    let mut made = LeaderSchedulePreCacher::new(
        LeaderScheduleCache::new(flat(50), 0),
        Arc::new(Provider { stakes: vec![3, 4], bound: 10 }),
        PreCacherConfig::default(),
    );
    assert_eq!(made.warm_epoch_sync(0), Ok(()));
    assert!(made.on_slot_processed(49));
    let provider = made.stake_provider();
    for epoch in made.take_dispatched() {
        let outcome = compute_leader_schedule(&*provider, &flat(50), epoch);
        made.complete_pre_cache_task(epoch, outcome, 1);
    }
    assert_eq!(made.stats().warmed_count, 2);
    // From slot 40 on the two schedules hold 8 and 48 slots
    let mut service = SlotLeaderRpcService::new(made.cache_mut());
    assert_eq!(service.get_slot_leaders(40, 56).unwrap().len(), 56);
    let error = service.get_slot_leaders(40, 57).unwrap_err();
    assert!(error.message().contains("leader schedule for epoch 2 is unavailable"));
}

#[test]
fn provider_behind_a_trait_object() {
    let provider: Arc<dyn StakeDataProvider> =
        Arc::new(Provider { stakes: vec![2], bound: 2 });
    let mut made = LeaderSchedulePreCacher::new(
        LeaderScheduleCache::new(flat(200), 0),
        provider,
        PreCacherConfig::default(),
    );
    assert!(made.on_slot_processed(100));
    let asked = made.stake_provider();
    for epoch in made.take_dispatched() {
        let outcome = compute_leader_schedule(&*asked, &flat(200), epoch);
        made.complete_pre_cache_task(epoch, outcome, 1);
    }
    assert!(made.cache().has_epoch(1));
}
