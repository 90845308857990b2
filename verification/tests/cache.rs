use solana_leader_precached::epoch_schedule::EpochSchedule;
use solana_leader_precached::leader_schedule::{FixedSchedule, SlotLeader};
use solana_leader_precached::leader_schedule_cache::{
    CacheCapacity, LeaderScheduleCache, MAX_SCHEDULES,
};
use solana_leader_precached::rpc_service::{RpcError, SlotLeaderRpcService, RPC_INVALID_PARAMS_CODE};
use solana_leader_schedule::LeaderSchedule;
use solana_pubkey::Pubkey;
use std::num::NonZeroUsize;
use std::sync::Arc;

fn key(n: u8) -> Pubkey {
    Pubkey::new_from_array([n; 32])
}

fn leader(n: u8) -> SlotLeader {
    SlotLeader { id: key(n), vote_address: key(n + 100) }
}

/// A schedule in which each of the given leaders has four slots in a row.
fn schedule(leaders: &[u8]) -> Arc<LeaderSchedule> {
    let slots = leaders
        .iter()
        .map(|n| solana_leader_schedule::SlotLeader { id: key(*n), vote_address: key(*n + 100) })
        .collect();
    Arc::new(LeaderSchedule::new_from_schedule(slots, NonZeroUsize::new(4).unwrap()))
}

fn flat(slots_per_epoch: u64) -> EpochSchedule {
    EpochSchedule {
        slots_per_epoch,
        leader_schedule_slot_offset: slots_per_epoch,
        warmup: false,
        first_normal_epoch: 0,
        first_normal_slot: 0,
    }
}

/// Epochs of 32, 64 and 128 slots, then of 256 slots from slot 224 on.
fn growing() -> EpochSchedule {
    let outside = solana_epoch_schedule::EpochSchedule::custom(256, 256, true);
    let schedule = EpochSchedule {
        slots_per_epoch: outside.slots_per_epoch,
        leader_schedule_slot_offset: outside.leader_schedule_slot_offset,
        warmup: outside.warmup,
        first_normal_epoch: outside.first_normal_epoch,
        first_normal_slot: outside.first_normal_slot,
    };
    assert_eq!(schedule.first_normal_epoch, 3);
    assert_eq!(schedule.first_normal_slot, 224);
    schedule
}

/// Epoch 0 is led by 1 and then 2, epoch 1 by 2 and then 1.
fn two_epochs() -> LeaderScheduleCache {
    let mut cache = LeaderScheduleCache::new(flat(8), 1);
    assert!(cache.warm_leader_schedule(0, schedule(&[1, 2])));
    assert!(cache.warm_leader_schedule(1, schedule(&[2, 1])));
    cache
}

#[test]
fn default_cache_is_empty_and_without_warmup() {
    let mut cache = LeaderScheduleCache::default();
    assert_eq!(cache.max_epoch(), 0);
    assert_eq!(cache.max_schedules(), 10);
    assert_eq!(MAX_SCHEDULES, 10);
    assert_eq!(cache.epoch_schedule.slots_per_epoch, 432_000);
    assert_eq!(cache.epoch_schedule.leader_schedule_slot_offset, 432_000);
    assert!(!cache.epoch_schedule.warmup);
    assert!(!cache.has_epoch(0));
    assert!(cache.get_epoch_leader_schedule(0).is_none());
}

#[test]
fn leader_of_each_slot_is_the_scheduled_one() {
    let mut cache = two_epochs();
    for slot in 0..16 {
        let expected = if slot < 4 || slot >= 12 { leader(1) } else { leader(2) };
        assert!(cache.is_answerable(slot));
        assert_eq!(cache.slot_leader_at(slot), Some(expected));
        assert_eq!(cache.slot_leader_at_no_compute(slot), Some(expected));
        assert_eq!(cache.slot_leader_at_with_epoch_guard(slot), Some(expected));
    }
    assert_eq!(cache.slot_leader_at(16), None);
    assert_eq!(cache.slot_leader_at_with_epoch_guard(16), None);
}

#[test]
fn leaders_in_warmup_epochs() {
    let mut cache = LeaderScheduleCache::new(growing(), 3);
    cache.warm_leader_schedule(0, schedule(&[1, 1, 1, 1, 1, 1, 1, 2]));
    cache.warm_leader_schedule(1, schedule(&[3, 4, 4, 4, 4, 4, 4, 4, 4, 4, 4, 4, 4, 4, 4, 5]));
    assert_eq!(cache.slot_leader_at(27), Some(leader(1)));
    assert_eq!(cache.slot_leader_at(28), Some(leader(2)));
    assert_eq!(cache.slot_leader_at(31), Some(leader(2)));
    assert_eq!(cache.slot_leader_at(32), Some(leader(3)));
    assert_eq!(cache.slot_leader_at(36), Some(leader(4)));
    assert_eq!(cache.slot_leader_at(95), Some(leader(5)));
    assert_eq!(cache.slot_leader_at(96), None);
    assert_eq!(cache.next_leader_slot(&key(5), 0, 100), Some((92, 95)));
    assert_eq!(cache.next_leader_slot(&key(3), 0, 100), Some((32, 35)));
}

#[test]
fn guard_hides_unconfirmed_epochs() {
    let mut cache = LeaderScheduleCache::new(flat(8), 0);
    cache.set_fixed_leader_schedule(Some(FixedSchedule { leader_schedule: schedule(&[1, 2]) }));
    assert_eq!(cache.slot_leader_at(9), Some(leader(1)));
    assert_eq!(cache.slot_leader_at_with_epoch_guard(7), Some(leader(2)));
    assert_eq!(cache.slot_leader_at_with_epoch_guard(8), None);
}

#[test]
fn no_leader_without_slots_per_epoch() {
    let mut cache = LeaderScheduleCache::new(flat(0), 0);
    cache.warm_leader_schedule(0, schedule(&[1, 2]));
    assert_eq!(cache.slot_leader_at(5), None);
    assert_eq!(cache.slot_leader_at_no_compute(5), Some(leader(1)));
}

#[test]
fn empty_schedule_cannot_be_looked_up() {
    let mut cache = LeaderScheduleCache::new(flat(8), 0);
    assert!(cache.is_answerable(0));
    cache.warm_leader_schedule(0, schedule(&[]));
    assert!(!cache.is_answerable(0));
    assert!(cache.is_answerable(8));
}

#[test]
fn fixed_schedule_answers_for_every_epoch() {
    let mut cache = two_epochs();
    cache.set_fixed_leader_schedule(Some(FixedSchedule { leader_schedule: schedule(&[7]) }));
    for epoch in [0, 1, 2, 1_000_000, u64::MAX] {
        assert_eq!(*cache.get_epoch_leader_schedule(epoch).unwrap(), *schedule(&[7]));
    }
    assert_eq!(cache.slot_leader_at(4), Some(leader(7)));
    assert_eq!(cache.slot_leader_at(4_000), Some(leader(7)));
    cache.set_fixed_leader_schedule(None);
    assert_eq!(cache.slot_leader_at(4), Some(leader(2)));
    assert!(cache.get_epoch_leader_schedule(2).is_none());
}

#[test]
fn read_gives_back_what_was_warmed() {
    let mut cache = two_epochs();
    assert_eq!(*cache.get_epoch_leader_schedule(0).unwrap(), *schedule(&[1, 2]));
    assert_eq!(*cache.get_epoch_leader_schedule(1).unwrap(), *schedule(&[2, 1]));
    assert!(cache.get_epoch_leader_schedule(2).is_none());
}

#[test]
fn first_schedule_of_an_epoch_stays() {
    let mut cache = two_epochs();
    assert!(!cache.warm_leader_schedule(0, schedule(&[9])));
    assert_eq!(cache.cached_schedules.1, vec![0, 1]);
    assert_eq!(*cache.get_epoch_leader_schedule(0).unwrap(), *schedule(&[1, 2]));
}

#[test]
fn epoch_that_was_warmed_first_leaves_unless_looked_up() {
    let mut cache = LeaderScheduleCache::new(flat(8), 0);
    cache.max_schedules = CacheCapacity(3);
    for epoch in [5, 2, 9, 4] {
        assert!(cache.warm_leader_schedule(epoch, schedule(&[epoch as u8])));
    }
    assert_eq!(cache.cached_schedules.1, vec![2, 9, 4]);
    assert_eq!(cache.cached_schedules.0.len(), 3);
    assert!(!cache.has_epoch(5));
    assert_eq!(*cache.get_epoch_leader_schedule(9).unwrap(), *schedule(&[9]));
    assert_eq!(cache.max_epoch(), 9);
}

#[test]
fn cache_without_capacity_holds_nothing() {
    let mut cache = LeaderScheduleCache::new(flat(8), 0);
    cache.max_schedules = CacheCapacity(0);
    assert!(cache.warm_leader_schedule(3, schedule(&[1])));
    assert!(!cache.has_epoch(3));
    assert_eq!(cache.max_epoch(), 3);
}

#[test]
fn rooting_raises_max_epoch_and_keeps_schedules() {
    let mut cache = two_epochs();
    assert_eq!(cache.set_root_slot(7), 1);
    assert_eq!(cache.max_epoch(), 1);
    assert_eq!(cache.set_root_slot(8), 2);
    assert_eq!(cache.max_epoch(), 2);
    assert_eq!(cache.set_root_slot(0), 1);
    assert_eq!(cache.max_epoch(), 2);
    assert!(cache.has_epoch(0) && cache.has_epoch(1) && !cache.has_epoch(2));
}

#[test]
fn rooting_in_warmup_epochs() {
    let mut cache = LeaderScheduleCache::new(growing(), 0);
    assert_eq!(cache.set_root_slot(31), 1);
    assert_eq!(cache.set_root_slot(32), 2);
    assert_eq!(cache.set_root_slot(223), 3);
    assert_eq!(cache.set_root_slot(224), 4);
    assert_eq!(cache.max_epoch(), 4);
}

#[test]
fn rooting_evicts_what_is_over_capacity() {
    let mut cache = LeaderScheduleCache::new(flat(8), 0);
    for epoch in 0..5 {
        cache.warm_leader_schedule(epoch, schedule(&[1, 2]));
    }
    cache.max_schedules = CacheCapacity(2);
    cache.set_root_slot(0);
    assert_eq!(cache.cached_schedules.1, vec![3, 4]);
    assert_eq!(cache.cached_schedules.0.len(), 2);
}

#[test]
fn next_leader_slot_joins_runs_across_the_boundary() {
    let mut cache = two_epochs();
    // 2 leads slots 4..=11
    assert_eq!(cache.next_leader_slot(&key(2), 0, 100), Some((4, 11)));
    assert_eq!(cache.next_leader_slot(&key(2), 3, 100), Some((4, 11)));
    assert_eq!(cache.next_leader_slot(&key(2), 5, 100), Some((6, 11)));
    assert_eq!(cache.next_leader_slot(&key(2), 10, 100), Some((11, 11)));
    assert_eq!(cache.next_leader_slot(&key(2), 11, 100), None);
    // 1 leads slots 0..=3 and 12..=15
    assert_eq!(cache.next_leader_slot(&key(1), 0, 100), Some((1, 3)));
    assert_eq!(cache.next_leader_slot(&key(1), 3, 100), Some((12, 15)));
}

#[test]
fn next_leader_slot_stops_at_the_range() {
    let mut cache = two_epochs();
    assert_eq!(cache.next_leader_slot(&key(2), 0, 0), Some((4, 4)));
    assert_eq!(cache.next_leader_slot(&key(2), 0, 1), Some((4, 4)));
    assert_eq!(cache.next_leader_slot(&key(2), 0, 5), Some((4, 8)));
    assert_eq!(cache.next_leader_slot(&key(2), 0, 8), Some((4, 11)));
    assert_eq!(cache.next_leader_slot(&key(2), 0, u64::MAX), Some((4, 11)));
}

#[test]
fn next_leader_slot_finds_nothing() {
    let mut cache = LeaderScheduleCache::new(flat(8), 2);
    cache.warm_leader_schedule(0, schedule(&[1, 1]));
    cache.warm_leader_schedule(2, schedule(&[2, 2]));
    // Nobody of that name
    assert_eq!(cache.next_leader_slot(&key(9), 0, 100), None);
    // Epoch 1 has no schedule, and the search does not jump over it
    assert_eq!(cache.next_leader_slot(&key(2), 0, 100), None);
    assert_eq!(cache.next_leader_slot(&key(2), 7, 100), None);
    assert_eq!(cache.next_leader_slot(&key(2), 15, 100), Some((16, 23)));
    // Epoch 3 is not confirmed
    assert_eq!(cache.next_leader_slot(&key(2), 23, 100), None);
}

#[test]
fn next_leader_slot_cuts_a_long_schedule_at_its_epoch() {
    let mut cache = LeaderScheduleCache::new(flat(6), 1);
    cache.warm_leader_schedule(0, schedule(&[1, 2]));
    assert_eq!(cache.next_leader_slot(&key(2), 0, 100), Some((4, 5)));
}

#[test]
fn next_leader_slot_repeats_a_short_schedule() {
    let mut cache = LeaderScheduleCache::new(flat(16), 0);
    cache.warm_leader_schedule(0, schedule(&[1, 2]));
    assert_eq!(cache.next_leader_slot(&key(1), 3, 100), Some((8, 11)));
}

#[test]
fn searches_that_would_overflow_are_told_apart() {
    let mut cache = two_epochs();
    assert_eq!(cache.checked_next_leader_slot(&key(2), 0, 100), Some(Some((4, 11))));
    assert_eq!(cache.checked_next_leader_slot(&key(9), 0, 100), Some(None));
    assert_eq!(cache.checked_next_leader_slot(&key(2), u64::MAX, 100), None);
    // The first led slot of the second epoch lies beyond the last slot
    let mut long = LeaderScheduleCache::new(flat(u64::MAX - 1), 1);
    long.warm_leader_schedule(0, schedule(&[1]));
    long.warm_leader_schedule(1, schedule(&[1, 2]));
    assert_eq!(long.checked_next_leader_slot(&key(2), 0, 100), None);
    assert_eq!(long.checked_next_leader_slot(&key(1), 0, 100), Some(Some((1, 100))));
}

#[test]
fn search_ends_at_the_run_it_finds() {
    // Epochs from the sixteenth on do not fit, and the search does not come to them
    let mut cache = LeaderScheduleCache::new(flat(1 << 60), 20);
    cache.set_fixed_leader_schedule(Some(FixedSchedule { leader_schedule: schedule(&[1, 2]) }));
    assert_eq!(cache.next_leader_slot(&key(2), 0, 100), Some((4, 7)));
    assert_eq!(cache.next_leader_slot(&key(1), 0, 100), Some((1, 3)));
}

#[test]
fn search_with_an_offset_beyond_the_schedule() {
    let mut cache = LeaderScheduleCache::new(flat(64), 0);
    cache.warm_leader_schedule(0, schedule(&[1, 2]));
    assert_eq!(cache.next_leader_slot(&key(2), 40, 100), Some((44, 47)));
    assert_eq!(cache.next_leader_slot(&key(2), 45, 100), Some((46, 47)));
    assert_eq!(cache.next_leader_slot(&key(2), 63, 100), None);
}

#[test]
fn search_can_start_anywhere_before_the_run() {
    let mut cache = two_epochs();
    for slot in 3..12 {
        assert_eq!(cache.next_leader_slot(&key(1), slot, 3), Some((12, 14)));
    }
    assert_eq!(cache.next_leader_slot(&key(1), 12, 3), Some((13, 15)));
}

#[test]
fn larger_range_ends_no_earlier() {
    let mut cache = two_epochs();
    let mut before = 0;
    for range in 0..20 {
        let (first, last) = cache.next_leader_slot(&key(2), 0, range).unwrap();
        assert_eq!(first, 4);
        assert!(last >= before);
        before = last;
    }
    assert_eq!(before, 11);
}

/// Ten epochs, each used when it was warmed.
fn ten_epochs() -> LeaderScheduleCache {
    let mut cache = LeaderScheduleCache::new(flat(8), 0);
    for epoch in 0..10 {
        assert!(cache.warm_leader_schedule(epoch, schedule(&[1, 2])));
    }
    cache
}

#[test]
fn least_recently_used_epoch_leaves() {
    let mut cache = ten_epochs();
    assert!(cache.get_epoch_leader_schedule(0).is_some());
    assert_eq!(cache.cached_schedules.1, vec![1, 2, 3, 4, 5, 6, 7, 8, 9, 0]);
    assert!(cache.warm_leader_schedule(10, schedule(&[1, 2])));
    assert!(cache.has_epoch(0));
    assert!(!cache.has_epoch(1));
    assert!(cache.has_epoch(10));
}

#[test]
fn asking_whether_an_epoch_is_there_is_no_use() {
    let mut cache = ten_epochs();
    assert!(cache.has_epoch(0));
    assert!(cache.is_answerable(0));
    assert!(cache.is_confirmed(0));
    assert!(!cache.warm_leader_schedule(0, schedule(&[1])));
    assert!(cache.get_epoch_leader_schedule(10).is_none());
    assert!(cache.warm_leader_schedule(10, schedule(&[1, 2])));
    assert!(!cache.has_epoch(0));
    assert!(cache.has_epoch(1));
}

#[test]
fn lookups_of_leaders_are_uses() {
    let mut cache = ten_epochs();
    cache.slot_leader_at(3);
    cache.slot_leader_at_no_compute(17);
    cache.slot_leader_at_with_epoch_guard(8);
    assert_eq!(cache.cached_schedules.1, vec![3, 4, 5, 6, 7, 8, 9, 0, 2, 1]);
    SlotLeaderRpcService::new(&mut cache).get_slot_leaders(3 * 8 + 7, 2).unwrap();
    assert_eq!(cache.cached_schedules.1, vec![5, 6, 7, 8, 9, 0, 2, 1, 3, 4]);
    // A refused request used what it came to
    SlotLeaderRpcService::new(&mut cache).get_slot_leaders(9 * 8, 9).unwrap_err();
    assert_eq!(cache.cached_schedules.1, vec![5, 6, 7, 8, 0, 2, 1, 3, 4, 9]);
    // A search looks up each epoch from its start on
    cache.next_leader_slot(&key(1), 7 * 8, 100);
    assert_eq!(cache.cached_schedules.1, vec![5, 6, 0, 2, 1, 3, 4, 7, 8, 9]);
}

#[test]
fn fixed_schedule_uses_no_epoch() {
    let mut cache = ten_epochs();
    cache.set_fixed_leader_schedule(Some(FixedSchedule { leader_schedule: schedule(&[7]) }));
    cache.get_epoch_leader_schedule(0);
    cache.slot_leader_at(3);
    cache.next_leader_slot(&key(7), 0, 4);
    SlotLeaderRpcService::new(&mut cache).get_slot_leaders(0, 20).unwrap();
    assert_eq!(cache.cached_schedules.1, vec![0, 1, 2, 3, 4, 5, 6, 7, 8, 9]);
}

#[test]
fn unconfirmed_epoch_is_not_looked_up() {
    let mut cache = ten_epochs();
    cache.max_epoch = 3;
    assert!(!cache.is_confirmed(4 * 8));
    assert_eq!(cache.slot_leader_at_with_epoch_guard(4 * 8), None);
    assert_eq!(cache.next_leader_slot(&key(1), 4 * 8, 4), None);
    assert_eq!(cache.cached_schedules.1, vec![0, 1, 2, 3, 4, 5, 6, 7, 8, 9]);
}

#[test]
fn slot_leaders_are_listed_across_the_boundary() {
    let mut cache = two_epochs();
    let mut service = SlotLeaderRpcService::new(&mut cache);
    assert_eq!(service.get_slot_leaders(2, 4).unwrap(), vec![key(1), key(1), key(2), key(2)]);
    assert_eq!(
        service.get_slot_leaders(6, 7).unwrap(),
        vec![key(2), key(2), key(2), key(2), key(2), key(2), key(1)]
    );
    assert_eq!(service.get_slot_leaders(0, 16).unwrap().len(), 16);
    assert_eq!(service.get_slot_leaders(15, 1).unwrap(), vec![key(1)]);
    for slot in 0..16 {
        let listed = SlotLeaderRpcService::new(&mut cache).get_slot_leaders(slot, 1).unwrap();
        assert_eq!(listed, vec![cache.slot_leader_at(slot).unwrap().id]);
    }
}

#[test]
fn request_can_be_split() {
    let mut cache = two_epochs();
    let mut service = SlotLeaderRpcService::new(&mut cache);
    for slot in 0..16 {
        for first in 0..10 {
            for second in 0..10 {
                let whole = service.get_slot_leaders(slot, first + second);
                let earlier = service.get_slot_leaders(slot, first);
                let later = service.get_slot_leaders(slot + first as u64, second);
                match whole {
                    Ok(leaders) => {
                        let mut joined = earlier.unwrap();
                        joined.extend(later.unwrap());
                        assert_eq!(leaders, joined);
                    }
                    Err(_) => assert!(earlier.is_err() || later.is_err()),
                }
            }
        }
    }
}

#[test]
fn no_slot_leaders_are_always_available() {
    let mut cache = LeaderScheduleCache::new(flat(8), 0);
    let mut service = SlotLeaderRpcService::new(&mut cache);
    assert_eq!(service.get_slot_leaders(123, 0), Ok(vec![]));
}

#[test]
fn refusal_names_the_first_missing_epoch() {
    let mut cache = two_epochs();
    let mut service = SlotLeaderRpcService::new(&mut cache);
    let error = service.get_slot_leaders(15, 2).unwrap_err();
    assert_eq!(
        error,
        RpcError::InvalidParams {
            code: RPC_INVALID_PARAMS_CODE,
            message: String::from(
                "Invalid slot range: leader schedule for epoch 2 is unavailable"
            ),
        }
    );
    assert_eq!(
        error.message(),
        "RPC response error -32602: Invalid slot range: leader schedule for epoch 2 is unavailable"
    );
    let far = service.get_slot_leaders(80_000, 1).unwrap_err();
    assert_eq!(
        far.message(),
        "RPC response error -32602: Invalid slot range: leader schedule for epoch 10000 is unavailable"
    );
}

#[test]
fn message_of_other_codes() {
    let show = |code: i32| RpcError::InvalidParams { code, message: String::from("m") }.message();
    assert_eq!(show(0), "RPC response error 0: m");
    assert_eq!(show(7), "RPC response error 7: m");
    assert_eq!(show(i32::MAX), "RPC response error 2147483647: m");
    assert_eq!(show(i32::MIN), "RPC response error -2147483648: m");
}

#[test]
fn endless_walks_are_told_apart() {
    let mut cache = LeaderScheduleCache::new(flat(8), 0);
    cache.set_fixed_leader_schedule(Some(FixedSchedule { leader_schedule: schedule(&[]) }));
    let mut service = SlotLeaderRpcService::new(&mut cache);
    assert!(service.checked_slot_leaders(0, 1).is_none());
    assert_eq!(service.checked_slot_leaders(0, 0), Some(Ok(vec![])));
    cache.set_fixed_leader_schedule(Some(FixedSchedule { leader_schedule: schedule(&[1]) }));
    let mut service = SlotLeaderRpcService::new(&mut cache);
    assert_eq!(
        service.checked_slot_leaders(2, 4),
        Some(Ok(vec![key(1), key(1), key(1), key(1)]))
    );
}
