use solana_account::{AccountSharedData, WritableAccount};
use solana_clock::Epoch;
use solana_leader_precached::leader_schedule_cache::LeaderScheduleCache;
use solana_leader_precached::pre_cacher::{
    compute_leader_schedule, LeaderSchedulePreCacher, PreCacherConfig, StakeDataProvider, WaitStep,
};
use solana_leader_precached::rpc_service::{RpcError, SlotLeaderRpcService};
use solana_leader_precached::EpochSchedule;
use solana_leader_schedule::LeaderSchedule;
use solana_pubkey::Pubkey;
use solana_vote::vote_account::{VoteAccount, VoteAccountsHashMap};
use std::collections::HashMap;
use std::str::FromStr;
use std::sync::{Arc, Mutex};

/// An epoch schedule without warm-up, laid out by the outside crate.
fn custom(slots_per_epoch: u64) -> EpochSchedule {
    let schedule = solana_epoch_schedule::EpochSchedule::custom(slots_per_epoch, slots_per_epoch, false);
    EpochSchedule {
        slots_per_epoch: schedule.slots_per_epoch,
        leader_schedule_slot_offset: schedule.leader_schedule_slot_offset,
        warmup: schedule.warmup,
        first_normal_epoch: schedule.first_normal_epoch,
        first_normal_slot: schedule.first_normal_slot,
    }
}

/// A vote account of the given validator.
fn vote_account(node: &Pubkey) -> VoteAccount {
    let owner = Pubkey::from_str("Vote111111111111111111111111111111111111111").unwrap();
    let mut data = vec![0u8; 3731];
    data[0] = 1;
    data[4..36].copy_from_slice(&node.to_bytes());
    let mut account = AccountSharedData::new(1_000_000, data.len(), &owner);
    account.set_data_from_slice(&data);
    VoteAccount::try_from(account).unwrap()
}

/// Mock stake data provider creating synthetic vote accounts with weighted stakes.
struct MockStakeDataProvider {
    stakes_by_epoch: HashMap<Epoch, VoteAccountsHashMap>,
}

impl MockStakeDataProvider {
    fn new() -> Self {
        Self { stakes_by_epoch: HashMap::new() }
    }

    fn with_epoch_stakes(mut self, epoch: Epoch, validators: &[(Pubkey, u64)]) -> Self {
        let mut vote_accounts = VoteAccountsHashMap::default();
        for &(node_pubkey, stake) in validators {
            vote_accounts.insert(node_pubkey, (stake, vote_account(&node_pubkey)));
        }
        self.stakes_by_epoch.insert(epoch, vote_accounts);
        self
    }

    fn with_shared_vote_accounts(mut self, epoch: Epoch, vote_accounts: VoteAccountsHashMap) -> Self {
        self.stakes_by_epoch.insert(epoch, vote_accounts);
        self
    }
}

impl StakeDataProvider for MockStakeDataProvider {
    fn get_epoch_vote_accounts(&self, epoch: Epoch) -> Option<VoteAccountsHashMap> {
        self.stakes_by_epoch.get(&epoch).cloned()
    }
}

fn create_test_validators() -> (Vec<(Pubkey, u64)>, Vec<Pubkey>) {
    let mut entries = Vec::new();
    let mut pubkeys = Vec::new();
    for i in 1..=5 {
        let pk = Pubkey::new_unique();
        entries.push((pk, i * 1_000_000_000));
        pubkeys.push(pk);
    }
    (entries, pubkeys)
}

/// Computes what was queued, as a background worker does.
fn run_background_tasks(pre_cacher: &mut LeaderSchedulePreCacher<MockStakeDataProvider>) {
    for epoch in pre_cacher.take_dispatched() {
        let provider = pre_cacher.stake_provider();
        let epoch_schedule = pre_cacher.cache().epoch_schedule;
        let outcome = compute_leader_schedule(&*provider, &epoch_schedule, epoch);
        pre_cacher.complete_pre_cache_task(epoch, outcome, 7);
    }
}

#[test]
fn test_audit_gap_reproduction_without_precacher() {
    // 200 slots per epoch
    let slots_per_epoch: u64 = 200;
    let epoch_schedule = custom(slots_per_epoch);
    let (val_entries, _) = create_test_validators();

    let stake_provider = Arc::new(
        MockStakeDataProvider::new()
            .with_epoch_stakes(0, &val_entries)
            .with_epoch_stakes(1, &val_entries)
            .with_epoch_stakes(2, &val_entries),
    );

    // Initial cache contains epochs 0 and 1
    let mut cache = LeaderScheduleCache::new(epoch_schedule, 1);
    let vote_accounts_0 = stake_provider.get_epoch_vote_accounts(0).unwrap();
    let schedule_0 = LeaderSchedule::new(
        &vote_accounts_0,
        0,
        slots_per_epoch as usize,
        solana_leader_schedule::NUM_CONSECUTIVE_LEADER_SLOTS,
    );
    cache.warm_leader_schedule(0, Arc::new(schedule_0));

    let vote_accounts_1 = stake_provider.get_epoch_vote_accounts(1).unwrap();
    let schedule_1 = LeaderSchedule::new(
        &vote_accounts_1,
        1,
        slots_per_epoch as usize,
        solana_leader_schedule::NUM_CONSECUTIVE_LEADER_SLOTS,
    );
    cache.warm_leader_schedule(1, Arc::new(schedule_1));

    assert!(cache.has_epoch(0));
    assert!(cache.has_epoch(1));
    assert!(!cache.has_epoch(2));

    // The root lags 31 slots behind the tip and is still in epoch 0
    let tip_slot = 230;
    let root_slot = tip_slot - 31;
    cache.set_root_slot(root_slot);
    assert_eq!(cache.max_epoch(), 1);
    assert!(!cache.has_epoch(2));

    // 100 slots from slot 350 on reach into epoch 2
    let query_start = 350;
    let query_limit = 100;
    let mut rpc_service = SlotLeaderRpcService::new(&mut cache);
    let result = rpc_service.get_slot_leaders(query_start, query_limit);
    match result {
        Err(RpcError::InvalidParams { code, message }) => {
            assert_eq!(code, -32602);
            assert!(
                message.contains("leader schedule for epoch 2 is unavailable"),
                "Expected error message for epoch 2, got: {message}"
            );
        }
        Ok(_) => panic!("Expected get_slot_leaders to fail with -32602 for missing Epoch 2"),
    }
}

#[test]
fn test_precacher_triggers_100_slots_before_boundary() {
    let slots_per_epoch: u64 = 200;
    let epoch_schedule = custom(slots_per_epoch);
    let (val_entries, _) = create_test_validators();

    let stake_provider = Arc::new(
        MockStakeDataProvider::new()
            .with_epoch_stakes(0, &val_entries)
            .with_epoch_stakes(1, &val_entries)
            .with_epoch_stakes(2, &val_entries),
    );

    let cache = LeaderScheduleCache::new(epoch_schedule, 1);
    let config = PreCacherConfig { warmup_slots_before_boundary: 100, max_concurrent_tasks: 2 };
    let mut pre_cacher = LeaderSchedulePreCacher::new(cache, stake_provider.clone(), config);

    // Warm epoch 1 so only epoch 2 is needed
    let vote_accounts_1 = stake_provider.get_epoch_vote_accounts(1).unwrap();
    let schedule_1 = LeaderSchedule::new(
        &vote_accounts_1,
        1,
        slots_per_epoch as usize,
        solana_leader_schedule::NUM_CONSECUTIVE_LEADER_SLOTS,
    );
    pre_cacher.cache_mut().warm_leader_schedule(1, Arc::new(schedule_1));

    // Epoch 1 spans slots 200..=399; 100 slots before its last slot is slot 299
    assert_eq!(pre_cacher.should_warm_epoch(298), None);
    assert_eq!(pre_cacher.should_warm_epoch(299), Some(2));

    let triggered = pre_cacher.on_slot_processed(299);
    assert!(triggered);

    assert_eq!(pre_cacher.wait_step(2, true), WaitStep::Sleep);
    run_background_tasks(&mut pre_cacher);
    assert_eq!(pre_cacher.wait_step(2, true), WaitStep::Done(true));

    assert!(pre_cacher.cache().has_epoch(2));
    let schedule_2 = pre_cacher.cache_mut().get_epoch_leader_schedule(2).unwrap();
    assert_eq!(schedule_2.get_slot_leaders().count(), slots_per_epoch as usize);
}

#[test]
fn test_rpc_seamless_across_boundary_with_precacher() {
    let slots_per_epoch: u64 = 200;
    let epoch_schedule = custom(slots_per_epoch);
    let (val_entries, _) = create_test_validators();

    let stake_provider = Arc::new(
        MockStakeDataProvider::new()
            .with_epoch_stakes(0, &val_entries)
            .with_epoch_stakes(1, &val_entries)
            .with_epoch_stakes(2, &val_entries),
    );

    let cache = LeaderScheduleCache::new(epoch_schedule, 1);
    let mut pre_cacher =
        LeaderSchedulePreCacher::new(cache, stake_provider, PreCacherConfig::default());

    // Initialize epochs 0 and 1
    pre_cacher.warm_epoch_sync(0).unwrap();
    pre_cacher.warm_epoch_sync(1).unwrap();

    // 100 slots before the boundary
    pre_cacher.on_slot_processed(299);
    run_background_tasks(&mut pre_cacher);
    assert_eq!(pre_cacher.wait_step(2, true), WaitStep::Done(true));

    // The root lags 31 slots behind the tip
    for tip_slot in 400..=431 {
        let root_slot = tip_slot - 31;
        pre_cacher.cache_mut().set_root_slot(root_slot);
        let mut rpc_service = SlotLeaderRpcService::new(pre_cacher.cache_mut());
        let leaders = rpc_service.get_slot_leaders(tip_slot, 100);
        assert!(
            leaders.is_ok(),
            "get_slot_leaders failed at tip_slot {} with root_slot {}: {:?}",
            tip_slot,
            root_slot,
            leaders.err()
        );
        let leaders_vec = leaders.unwrap();
        assert_eq!(leaders_vec.len(), 100);
    }

    // The query that spans the boundary
    let mut rpc_service = SlotLeaderRpcService::new(pre_cacher.cache_mut());
    let boundary_query = rpc_service.get_slot_leaders(350, 100).unwrap();
    assert_eq!(boundary_query.len(), 100);

    let stats = pre_cacher.stats();
    assert_eq!(stats.triggered_count, 1);
    assert_eq!(stats.warmed_count, 3); // epochs 0, 1 and 2
}

#[test]
fn test_precacher_deduplication_under_concurrency() {
    let slots_per_epoch: u64 = 200;
    let epoch_schedule = custom(slots_per_epoch);
    let (val_entries, _) = create_test_validators();

    let stake_provider = Arc::new(
        MockStakeDataProvider::new()
            .with_epoch_stakes(0, &val_entries)
            .with_epoch_stakes(1, &val_entries),
    );

    let cache = LeaderScheduleCache::new(epoch_schedule, 0);
    let pre_cacher = Arc::new(Mutex::new(LeaderSchedulePreCacher::new(
        cache,
        stake_provider,
        PreCacherConfig::default(),
    )));

    // Slots 100..200 all lie in the warm-up window for epoch 1; each is processed by a task of its
    // own, and whichever starts a computation runs it
    let runtime = tokio::runtime::Builder::new_multi_thread().worker_threads(4).build().unwrap();
    runtime.block_on(async {
        let mut handles = Vec::new();
        for slot in 100..200 {
            let pc = pre_cacher.clone();
            handles.push(tokio::spawn(async move {
                let triggered = pc.lock().unwrap().on_slot_processed(slot);
                if triggered {
                    run_background_tasks(&mut pc.lock().unwrap());
                }
            }));
        }
        for h in handles {
            h.await.unwrap();
        }
    });

    let pre_cacher = pre_cacher.lock().unwrap();
    assert_eq!(pre_cacher.wait_step(1, true), WaitStep::Done(true));

    let stats = pre_cacher.stats();
    let triggered = stats.triggered_count;
    let dedup = stats.deduplicated_count;
    let already_cached = stats.already_cached_count;
    assert_eq!(triggered, 1, "Only 1 background compute task must be triggered");
    assert_eq!(dedup + already_cached, 99, "All subsequent 99 ticks must be deduplicated");
}

#[test]
fn test_cache_lru_retention_policy() {
    let slots_per_epoch: u64 = 200;
    let epoch_schedule = custom(slots_per_epoch);
    let (val_entries, _) = create_test_validators();

    let mut stake_builder = MockStakeDataProvider::new();
    for e in 0..15 {
        stake_builder = stake_builder.with_epoch_stakes(e, &val_entries);
    }
    let stake_provider = Arc::new(stake_builder);

    let cache = LeaderScheduleCache::new(epoch_schedule, 0);
    let mut pre_cacher =
        LeaderSchedulePreCacher::new(cache, stake_provider, PreCacherConfig::default());

    // Warm epochs 0 through 11 (12 epochs). MAX_SCHEDULES is 10.
    for e in 0..12 {
        pre_cacher.warm_epoch_sync(e).unwrap();
    }

    let (map, order) = &pre_cacher.cache().cached_schedules;
    assert_eq!(map.len(), 10, "Cache must not exceed MAX_SCHEDULES (10)");
    assert_eq!(order.len(), 10);

    assert!(!map.contains_key(&0));
    assert!(!map.contains_key(&1));
    for e in 2..=11 {
        assert!(map.contains_key(&e));
    }
}

#[test]
fn test_precacher_missing_stakes_graceful_handling() {
    let slots_per_epoch: u64 = 200;
    let epoch_schedule = custom(slots_per_epoch);
    // No stakes for epoch 2
    let stake_provider = Arc::new(MockStakeDataProvider::new());

    let cache = LeaderScheduleCache::new(epoch_schedule, 1);
    let mut pre_cacher =
        LeaderSchedulePreCacher::new(cache, stake_provider, PreCacherConfig::default());

    // Slot 299 lies in the window of epoch 1
    pre_cacher.on_slot_processed(299);
    run_background_tasks(&mut pre_cacher);

    assert!(!pre_cacher.cache().has_epoch(2));

    // The epoch is no longer in flight, so that a retry can happen
    assert!(!pre_cacher.is_inflight(2));

    assert_eq!(pre_cacher.stats().missing_stakes_count, 1);
}

#[test]
fn test_next_leader_slot_continuity_across_boundary() {
    let slots_per_epoch: u64 = 200;
    let epoch_schedule = custom(slots_per_epoch);
    let mut shared_vote_accounts = VoteAccountsHashMap::default();
    for _ in 0..5 {
        let va = vote_account(&Pubkey::new_unique());
        shared_vote_accounts.insert(*va.node_pubkey(), (1_000_000_000, va));
    }

    let stake_provider = Arc::new(
        MockStakeDataProvider::new()
            .with_shared_vote_accounts(0, shared_vote_accounts.clone())
            .with_shared_vote_accounts(1, shared_vote_accounts.clone())
            .with_shared_vote_accounts(2, shared_vote_accounts),
    );

    let cache = LeaderScheduleCache::new(epoch_schedule, 1);
    let mut pre_cacher =
        LeaderSchedulePreCacher::new(cache, stake_provider, PreCacherConfig::default());

    pre_cacher.warm_epoch_sync(0).unwrap();
    pre_cacher.warm_epoch_sync(1).unwrap();

    // Trigger the pre-cacher to warm epoch 2 at slot 300
    pre_cacher.on_slot_processed(300);
    run_background_tasks(&mut pre_cacher);
    assert_eq!(pre_cacher.wait_step(2, true), WaitStep::Done(true));

    // Pick a validator that exists in the computed leader schedule
    let cache = pre_cacher.cache_mut();
    let schedule_1 = cache.get_epoch_leader_schedule(1).unwrap();
    let target_validator = schedule_1.get_slot_leaders().next().unwrap().id;

    let next_slot = cache.next_leader_slot(&target_validator, 390, 200);
    assert!(next_slot.is_some(), "Next leader slot must be found across boundary");
    let (first, last) = next_slot.unwrap();
    assert!(first > 390);
    assert!(last >= first);
}
