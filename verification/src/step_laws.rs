//! What each step of a pre-cacher does to its state, and what comes of many steps.

use crate::pre_cacher::{
    PreCacherError, PreCacherStats, PreCacherView, ScheduleOutcome, WaitStep,
};
use solana_clock::Epoch;
use solana_leader_schedule::LeaderSchedule;
use solana_vote::vote_account::VoteAccountsHashMap;
use std::sync::Arc;
use vstd::prelude::*;

verus! {

/// A slot with more than `warmup_slots_before_boundary` slots between itself and the last slot of
/// its epoch asks for nothing and changes nothing.
pub proof fn law_slot_before_the_window_changes_nothing(state: PreCacherView, slot: int)
    requires
        slot + state.config.warmup_slots_before_boundary
            < state.cache.epoch_schedule.last_slot_in(state.cache.epoch_schedule.epoch_of(slot)),
    ensures
        state.warming_due(slot) is None,
        !state.triggers(slot),
        state.after_slot(slot) == state,
{
}

/// A slot in the window whose next epoch is cached asks for nothing; it is counted, and nothing
/// else happens.
pub proof fn law_slot_finds_the_next_epoch_cached(state: PreCacherView, slot: int, next: Epoch)
    requires
        slot + state.config.warmup_slots_before_boundary
            >= state.cache.epoch_schedule.last_slot_in(state.cache.epoch_schedule.epoch_of(slot)),
        next == state.cache.epoch_schedule.epoch_of(slot) + 1 || (next == u64::MAX
            && state.cache.epoch_schedule.epoch_of(slot) >= u64::MAX),
        state.cache.schedules.contains_key(next),
    ensures
        state.warming_due(slot) is None,
        !state.triggers(slot),
        state.after_slot(slot) == (PreCacherView {
            stats: PreCacherStats {
                already_cached_count: state.stats.already_cached_count.wrapping_add(1),
                ..state.stats
            },
            ..state
        }),
{
}

/// A slot in the window whose next epoch is in flight and not cached starts nothing, whether the
/// epoch is still in the queue or was taken from it: the queue stays as it is, and the slot counts
/// as a duplicate.
pub proof fn law_slot_finds_the_next_epoch_in_flight(state: PreCacherView, slot: int, next: Epoch)
    requires
        slot + state.config.warmup_slots_before_boundary
            >= state.cache.epoch_schedule.last_slot_in(state.cache.epoch_schedule.epoch_of(slot)),
        next == state.cache.epoch_schedule.epoch_of(slot) + 1 || (next == u64::MAX
            && state.cache.epoch_schedule.epoch_of(slot) >= u64::MAX),
        !state.cache.schedules.contains_key(next),
        state.inflight.contains(next),
    ensures
        state.warming_due(slot) == Some(next),
        !state.triggers(slot),
        state.after_slot(slot) == (PreCacherView {
            stats: PreCacherStats {
                deduplicated_count: state.stats.deduplicated_count.wrapping_add(1),
                ..state.stats
            },
            ..state
        }),
{
}

/// A slot in the window whose next epoch is neither cached nor in flight puts it in flight and
/// last in the queue, and is counted as a trigger.
pub proof fn law_slot_queues_the_next_epoch(state: PreCacherView, slot: int, next: Epoch)
    requires
        slot + state.config.warmup_slots_before_boundary
            >= state.cache.epoch_schedule.last_slot_in(state.cache.epoch_schedule.epoch_of(slot)),
        next == state.cache.epoch_schedule.epoch_of(slot) + 1 || (next == u64::MAX
            && state.cache.epoch_schedule.epoch_of(slot) >= u64::MAX),
        !state.cache.schedules.contains_key(next),
        !state.inflight.contains(next),
    ensures
        state.warming_due(slot) == Some(next),
        state.triggers(slot),
        state.after_slot(slot) == (PreCacherView {
            inflight: state.inflight.insert(next),
            dispatched: state.dispatched.push(next),
            stats: PreCacherStats {
                triggered_count: state.stats.triggered_count.wrapping_add(1),
                ..state.stats
            },
            ..state
        }),
{
}

/// A dispatch without a slot puts the epoch last in the queue and is counted as a trigger; whether
/// the epoch is in flight or cached plays no part and does not change.
pub proof fn law_dispatch_queues_one_epoch(state: PreCacherView, epoch: Epoch)
    ensures
        state.with_dispatched(epoch) == (PreCacherView {
            dispatched: state.dispatched.push(epoch),
            stats: PreCacherStats {
                triggered_count: state.stats.triggered_count.wrapping_add(1),
                ..state.stats
            },
            ..state
        }),
{
}

/// Taking hands out the epochs that were queued first, until the queue is empty or as many
/// computations run as are allowed. The others stay in their order, and nothing else changes.
pub proof fn law_taking_fills_the_free_places(state: PreCacherView)
    ensures
        ({
            let n = state.startable();
            let after = state.after_take();
            &&& 0 <= n <= state.dispatched.len()
            &&& n == state.dispatched.len() || state.running + n
                >= state.config.max_concurrent_tasks
            &&& n == 0 || state.running + n <= state.config.max_concurrent_tasks
            &&& after.running == state.running + n
            &&& after.dispatched.len() == state.dispatched.len() - n
            &&& forall|i: int|
                0 <= i < after.dispatched.len() ==> #[trigger] after.dispatched[i]
                    == state.dispatched[n + i]
            &&& after.cache == state.cache
            &&& after.config == state.config
            &&& after.inflight == state.inflight
            &&& after.stats == state.stats
        }),
{
}

/// The end of a computation frees its place and takes its epoch out of flight. A schedule goes to
/// the cache for that epoch and is counted with the time that it took; missing stakes are
/// counted; anything else leaves no trace.
pub proof fn law_task_end_is_noted(
    state: PreCacherView,
    epoch: Epoch,
    outcome: ScheduleOutcome,
    elapsed_us: u64,
)
    ensures
        ({
            let after = state.after_task(epoch, outcome, elapsed_us);
            &&& after.config == state.config
            &&& after.dispatched == state.dispatched
            &&& after.inflight == state.inflight.remove(epoch)
            &&& state.running > 0 ==> after.running == state.running - 1
            &&& state.running == 0 ==> after.running == 0
            &&& match outcome {
                ScheduleOutcome::Computed(schedule) => {
                    &&& after.cache == state.cache.warmed(epoch, schedule)
                    &&& after.stats == (PreCacherStats {
                        warmed_count: state.stats.warmed_count.wrapping_add(1),
                        total_compute_duration_us:
                            state.stats.total_compute_duration_us.wrapping_add(elapsed_us),
                        ..state.stats
                    })
                },
                ScheduleOutcome::MissingStakes => {
                    &&& after.cache == state.cache
                    &&& after.stats == (PreCacherStats {
                        missing_stakes_count: state.stats.missing_stakes_count.wrapping_add(1),
                        ..state.stats
                    })
                },
                ScheduleOutcome::Failed => {
                    &&& after.cache == state.cache
                    &&& after.stats == state.stats
                },
            }
        }),
{
}

/// The schedule that a background computation came to is the one that the cache holds for the
/// epoch from then on, unless the epoch had one already.
pub proof fn law_task_end_stores_the_computed_schedule(
    state: PreCacherView,
    epoch: Epoch,
    schedule: Arc<LeaderSchedule>,
    elapsed_us: u64,
)
    requires
        state.cache.well_formed(),
        state.cache.max_schedules > 0,
        !state.cache.schedules.contains_key(epoch),
    ensures
        ({
            let after = state.after_task(epoch, ScheduleOutcome::Computed(schedule), elapsed_us);
            &&& after.cache.schedules.contains_key(epoch)
            &&& after.cache.schedules[epoch] == schedule
        }),
{
    crate::cache_laws::law_read_gives_back_what_was_warmed(state.cache, epoch, schedule);
}

/// A computed schedule is the one that is drawn for that very epoch, from those very vote
/// accounts, for the whole turns of four slots within the length that was asked for. There is one
/// exactly where there are vote accounts, they hold stake, no more than a `u64` counts, and the
/// choices fit in memory; without vote accounts there are no stakes, and else nothing comes of it.
pub proof fn law_computed_schedule_is_drawn_for_its_epoch(
    outcome: ScheduleOutcome,
    answer: Option<VoteAccountsHashMap>,
    epoch: Epoch,
    len: int,
)
    requires
        0 <= len,
        outcome.comes_of(answer, epoch, len),
    ensures
        answer is None <==> outcome is MissingStakes,
        outcome is Computed <==> (answer matches Some(accounts) && 0
            < crate::leader_schedule::total_stake(accounts@) <= u64::MAX && len / 4 * 64
            <= isize::MAX),
        outcome matches ScheduleOutcome::Computed(schedule) ==> {
            let accounts = (answer->0)@;
            let slots = crate::leader_schedule::schedule_slots(*schedule);
            &&& slots == crate::leader_schedule::drawn_slots(
                accounts,
                epoch,
                (len - len % 4) as nat,
                4,
            )
            &&& slots.len() == len - len % 4
            &&& forall|i: int|
                0 <= i < slots.len() ==> {
                    &&& accounts.contains_key((#[trigger] slots[i]).vote_address)
                    &&& accounts[slots[i].vote_address].0 > 0
                    &&& slots[i] == slots[i - i % 4]
                }
        },
{
}

/// Warming an epoch in the foreground stores the schedule that is drawn for that very epoch from
/// the provider's vote accounts, for the slots of that epoch, and counts it. Without vote accounts
/// or without a schedule it says so and changes nothing.
pub proof fn law_foreground_warming_stores_the_drawn_schedule(
    state: PreCacherView,
    epoch: Epoch,
    answer: Option<VoteAccountsHashMap>,
    outcome: ScheduleOutcome,
    result: Result<(), PreCacherError>,
    after: PreCacherView,
)
    requires
        state.cache.well_formed(),
        state.cache.max_schedules > 0,
        !state.cache.schedules.contains_key(epoch),
        state.syncs(epoch, answer, outcome, result, after),
    ensures
        match answer {
            None => {
                &&& result == Err::<(), PreCacherError>(PreCacherError::MissingStakeData(epoch))
                &&& after == state
            },
            Some(accounts) => {
                let len = (state.cache.epoch_schedule.slots_in(epoch as int) as u64
                    as usize) as int;
                if 0 < crate::leader_schedule::total_stake(accounts@) <= u64::MAX && len / 4 * 64
                    <= isize::MAX {
                    &&& result == Ok::<(), PreCacherError>(())
                    &&& after.cache.schedules.contains_key(epoch)
                    &&& crate::leader_schedule::schedule_slots(*after.cache.schedules[epoch])
                        == crate::leader_schedule::drawn_slots(
                        accounts@,
                        epoch,
                        (len - len % 4) as nat,
                        4,
                    )
                    &&& outcome == ScheduleOutcome::Computed(after.cache.schedules[epoch])
                    &&& after == (PreCacherView {
                        cache: state.cache.warmed(epoch, after.cache.schedules[epoch]),
                        stats: PreCacherStats {
                            warmed_count: state.stats.warmed_count.wrapping_add(1),
                            ..state.stats
                        },
                        ..state
                    })
                } else {
                    &&& result == Err::<(), PreCacherError>(
                        PreCacherError::CalculationFailed(epoch),
                    )
                    &&& after == state
                }
            },
        },
{
    if let ScheduleOutcome::Computed(schedule) = outcome {
        crate::cache_laws::law_read_gives_back_what_was_warmed(state.cache, epoch, schedule);
    }
}

/// What a foreground computation came to decides the result, and a schedule that it came to is
/// offered to the cache for that very epoch and counted; anything else changes nothing.
pub proof fn law_foreground_outcome_is_noted(
    state: PreCacherView,
    epoch: Epoch,
    outcome: ScheduleOutcome,
)
    ensures
        match outcome {
            ScheduleOutcome::Computed(schedule) => {
                &&& PreCacherView::sync_result(epoch, outcome) == Ok::<(), PreCacherError>(())
                &&& state.after_sync(epoch, outcome) == (PreCacherView {
                    cache: state.cache.warmed(epoch, schedule),
                    stats: PreCacherStats {
                        warmed_count: state.stats.warmed_count.wrapping_add(1),
                        ..state.stats
                    },
                    ..state
                })
            },
            ScheduleOutcome::MissingStakes => {
                &&& PreCacherView::sync_result(epoch, outcome) == Err::<(), PreCacherError>(
                    PreCacherError::MissingStakeData(epoch),
                )
                &&& state.after_sync(epoch, outcome) == state
            },
            ScheduleOutcome::Failed => {
                &&& PreCacherView::sync_result(epoch, outcome) == Err::<(), PreCacherError>(
                    PreCacherError::CalculationFailed(epoch),
                )
                &&& state.after_sync(epoch, outcome) == state
            },
        },
{
}

/// Warming an epoch in the foreground is decided by the provider's answer alone, through what comes
/// of it for the slots of that very epoch: that is what the result tells and what is noted.
pub proof fn law_foreground_warming_follows_the_answer(
    state: PreCacherView,
    epoch: Epoch,
    answer: Option<VoteAccountsHashMap>,
    outcome: ScheduleOutcome,
    result: Result<(), PreCacherError>,
    after: PreCacherView,
)
    requires
        state.syncs(epoch, answer, outcome, result, after),
    ensures
        outcome.comes_of(
            answer,
            epoch,
            (state.cache.epoch_schedule.slots_in(epoch as int) as u64 as usize) as int,
        ),
        outcome is Computed <==> result is Ok,
        outcome is MissingStakes <==> result == Err::<(), PreCacherError>(
            PreCacherError::MissingStakeData(epoch),
        ),
        outcome is Failed <==> result == Err::<(), PreCacherError>(
            PreCacherError::CalculationFailed(epoch),
        ),
        result is Err ==> after == state,
        outcome matches ScheduleOutcome::Computed(schedule) ==> after.cache == state.cache.warmed(
            epoch,
            schedule,
        ),
        result is Ok ==> after == (PreCacherView {
            cache: after.cache,
            stats: PreCacherStats {
                warmed_count: state.stats.warmed_count.wrapping_add(1),
                ..state.stats
            },
            ..state
        }),
{
}

/// Warming a cached epoch in the foreground counts the request, and changes nothing else.
pub proof fn law_foreground_request_for_a_cached_epoch_is_counted(state: PreCacherView)
    ensures
        state.with_already_cached() == (PreCacherView {
            stats: PreCacherStats {
                already_cached_count: state.stats.already_cached_count.wrapping_add(1),
                ..state.stats
            },
            ..state
        }),
{
}

/// A wait ends with success exactly where the cache holds the epoch. Where it does not, the wait
/// goes on before the deadline and ends without success after it; which epochs are confirmed
/// plays no part.
pub proof fn law_wait_ends_where_the_epoch_is_cached(
    state: PreCacherView,
    epoch: Epoch,
    before_deadline: bool,
)
    ensures
        state.cache.schedules.contains_key(epoch) <==> state.wait_step(epoch, before_deadline)
            == WaitStep::Done(true),
        !state.cache.schedules.contains_key(epoch) && before_deadline <==> state.wait_step(
            epoch,
            before_deadline,
        ) == WaitStep::Sleep,
        !state.cache.schedules.contains_key(epoch) && !before_deadline <==> state.wait_step(
            epoch,
            before_deadline,
        ) == WaitStep::Done(false),
{
}

/// A pre-cacher starts with nothing counted.
pub proof fn law_nothing_is_counted_at_first()
    ensures
        PreCacherStats::zero().triggered_count == 0,
        PreCacherStats::zero().warmed_count == 0,
        PreCacherStats::zero().deduplicated_count == 0,
        PreCacherStats::zero().already_cached_count == 0,
        PreCacherStats::zero().missing_stakes_count == 0,
        PreCacherStats::zero().total_compute_duration_us == 0,
{
}

/// Each error is shown with what went wrong and the epoch that it went wrong for.
pub proof fn law_error_names_its_epoch(epoch: Epoch)
    ensures
        PreCacherError::MissingStakeData(epoch).text() == "Stake data missing for epoch "@
            + crate::decimal::decimal(epoch as nat),
        PreCacherError::CalculationFailed(epoch).text()
            == "Leader schedule calculation failed for epoch "@ + crate::decimal::decimal(
            epoch as nat,
        ),
        PreCacherError::Timeout(epoch).text() == "Epoch "@ + crate::decimal::decimal(epoch as nat)
            + " calculation timed out"@,
{
}

/// What befalls a pre-cacher.
pub enum PreCacherEvent {
    /// A slot is processed.
    Processed(int),
    /// The epochs that may be started are taken from the queue.
    Taken,
    /// The computation for an epoch ends.
    Ended(Epoch, ScheduleOutcome, u64),
}

impl PreCacherView {
    /// The state after one event.
    pub open spec fn after(self, event: PreCacherEvent) -> PreCacherView {
        match event {
            PreCacherEvent::Processed(slot) => self.after_slot(slot),
            PreCacherEvent::Taken => self.after_take(),
            PreCacherEvent::Ended(epoch, outcome, elapsed_us) => self.after_task(
                epoch,
                outcome,
                elapsed_us,
            ),
        }
    }

    /// The state after several events, one after the other.
    pub open spec fn after_all(self, events: Seq<PreCacherEvent>) -> PreCacherView
        decreases events.len(),
    {
        if events.len() == 0 {
            self
        } else {
            self.after_all(events.drop_last()).after(events.last())
        }
    }

    /// The epochs that one event hands out for computation.
    pub open spec fn handed_out_by(self, event: PreCacherEvent) -> Seq<Epoch> {
        match event {
            PreCacherEvent::Taken => self.dispatched.take(self.startable()),
            _ => Seq::empty(),
        }
    }

    /// The epochs that several events hand out for computation, one after the other.
    pub open spec fn handed_out(self, events: Seq<PreCacherEvent>) -> Seq<Epoch>
        decreases events.len(),
    {
        if events.len() == 0 {
            Seq::empty()
        } else {
            self.handed_out(events.drop_last()) + self.after_all(
                events.drop_last(),
            ).handed_out_by(events.last())
        }
    }
}

/// Whatever slots are processed, whatever is taken from the queue and whichever other computations
/// end meanwhile, an epoch that is not in flight and not queued is handed out for computation at
/// most once until its own computation ends. Once it was triggered it is in flight until then, and
/// it is either still in the queue or was handed out.
pub proof fn law_epoch_is_handed_out_once(
    state: PreCacherView,
    events: Seq<PreCacherEvent>,
    epoch: Epoch,
)
    requires
        !state.inflight.contains(epoch),
        !state.dispatched.contains(epoch),
        forall|i: int|
            0 <= i < events.len() ==> ((#[trigger] events[i]) matches PreCacherEvent::Ended(
                ended,
                _,
                _,
            ) ==> ended != epoch),
    ensures
        ({
            let all = state.handed_out(events) + state.after_all(events).dispatched;
            &&& forall|i: int, j: int|
                0 <= i < j < all.len() && all[i] == epoch ==> all[j] != epoch
            &&& all.contains(epoch) <==> state.after_all(events).inflight.contains(epoch)
        }),
    decreases events.len(),
{
    let all = state.handed_out(events) + state.after_all(events).dispatched;
    if events.len() == 0 {
        assert(all =~= state.dispatched);
    } else {
        let fewer = events.drop_last();
        let event = events.last();
        let before = state.after_all(fewer);
        let after = state.after_all(events);
        assert forall|i: int| 0 <= i < fewer.len() implies ((#[trigger] fewer[i]) matches
            PreCacherEvent::Ended(ended, _, _) ==> ended != epoch) by {
            assert(fewer[i] == events[i]);
        }
        law_epoch_is_handed_out_once(state, fewer, epoch);
        let earlier = state.handed_out(fewer) + before.dispatched;
        assert(event == events[events.len() - 1]);
        match event {
            PreCacherEvent::Processed(slot) => {
                if before.triggers(slot) {
                    let target = before.target(slot)->0;
                    assert(all =~= earlier.push(target));
                    if target == epoch {
                        assert(all[all.len() - 1] == epoch);
                        assert forall|i: int, j: int|
                            0 <= i < j < all.len() && all[i] == epoch implies all[j] != epoch by {
                            assert(earlier[i] == all[i]);
                            assert(earlier.contains(epoch));
                        }
                    } else {
                        assert(all.contains(epoch) == earlier.contains(epoch)) by {
                            if earlier.contains(epoch) {
                                let k = choose|k: int|
                                    0 <= k < earlier.len() && earlier[k] == epoch;
                                assert(all[k] == epoch);
                            }
                            if all.contains(epoch) {
                                let k = choose|k: int| 0 <= k < all.len() && all[k] == epoch;
                                assert(earlier[k] == epoch);
                            }
                        }
                    }
                } else {
                    assert(all =~= earlier);
                }
            },
            PreCacherEvent::Taken => {
                assert(all =~= earlier);
            },
            PreCacherEvent::Ended(ended, outcome, elapsed_us) => {
                assert(all =~= earlier);
            },
        }
    }
}

} // verus!
