//! What holds of a pre-cacher across calls.

use crate::leader_schedule_cache::CacheView;
use crate::pre_cacher::{PreCacherError, PreCacherView, ScheduleOutcome, WaitStep};
use solana_clock::{Epoch, Slot};
use solana_leader_schedule::LeaderSchedule;
use solana_pubkey::Pubkey;
use solana_vote::vote_account::VoteAccountsHashMap;
use std::sync::Arc;
use vstd::prelude::*;

verus! {

/// What a counter shows after it was raised by `n`: it starts over after the largest `u64`.
pub open spec fn raised(counter: u64, n: int) -> int {
    (counter + n) % 0x1_0000_0000_0000_0000
}

impl PreCacherView {
    /// The state after several slots were processed, one after the other.
    pub open spec fn after_slots(self, slots: Seq<int>) -> PreCacherView
        decreases slots.len(),
    {
        if slots.len() == 0 {
            self
        } else {
            self.after_slots(slots.drop_last()).after_slot(slots.last())
        }
    }

    /// Whether each queued epoch is queued once and is in flight.
    pub open spec fn queue_is_in_flight(self) -> bool {
        &&& self.dispatched.no_duplicates()
        &&& forall|i: int|
            0 <= i < self.dispatched.len() ==> self.inflight.contains(
                #[trigger] self.dispatched[i],
            )
    }
}

/// The warm-up window is the end of each epoch: a slot asks for the next epoch where no more than
/// `warmup_slots_before_boundary` slots of its own epoch come after it, and for nothing before.
pub proof fn law_window_is_the_end_of_the_epoch(state: PreCacherView, slot: int)
    requires
        state.cache.epoch_schedule.regular(),
        0 <= slot <= u64::MAX,
        state.cache.epoch_schedule.start_of(state.cache.epoch_schedule.epoch_of(slot) + 1)
            <= u64::MAX,
    ensures
        ({
            let epoch = state.cache.epoch_schedule.epoch_of(slot);
            let left = state.cache.epoch_schedule.start_of(epoch + 1) - 1 - slot;
            &&& left >= 0
            &&& state.target(slot) is Some == (left
                <= state.config.warmup_slots_before_boundary)
            &&& state.target(slot) matches Some(target) ==> target == epoch + 1
        }),
{
    let es = state.cache.epoch_schedule;
    let epoch = es.epoch_of(slot);
    crate::epoch_schedule::law_every_slot_has_a_position(es, slot);
    crate::epoch_schedule::law_epochs_are_adjacent(es, epoch);
    if epoch == u64::MAX {
        crate::epoch_schedule::law_slot_lies_between_epoch_starts(es, epoch, slot);
    }
}

/// A slot in the warm-up window counts as one of three: it has a computation queued, it finds one
/// queued or running, or it finds the epoch cached. A slot before the window changes nothing. Neither
/// touches the cache.
pub proof fn law_slot_in_the_window_counts_once(state: PreCacherView, slot: int)
    ensures
        ({
            let before = state.stats;
            let after = state.after_slot(slot).stats;
            let triggered = after.triggered_count != before.triggered_count;
            let deduplicated = after.deduplicated_count != before.deduplicated_count;
            let already_cached = after.already_cached_count != before.already_cached_count;
            &&& triggered == state.triggers(slot)
            &&& triggered ==> after.triggered_count == raised(before.triggered_count, 1)
            &&& deduplicated ==> after.deduplicated_count == raised(before.deduplicated_count, 1)
            &&& already_cached ==> after.already_cached_count == raised(
                before.already_cached_count,
                1,
            )
            &&& !(triggered && deduplicated)
            &&& !(triggered && already_cached)
            &&& !(deduplicated && already_cached)
            &&& state.target(slot) is Some == (triggered || deduplicated || already_cached)
        }),
        state.after_slot(slot).cache == state.cache,
        state.after_slot(slot).config == state.config,
        state.after_slot(slot).running == state.running,
        state.target(slot) is None ==> state.after_slot(slot) == state,
        state.triggers(slot) == (state.after_slot(slot).dispatched.len()
            == state.dispatched.len() + 1),
{
}

/// While an epoch is neither cached nor in flight, the first of any number of slots that ask for
/// it has its computation queued, and all others find it queued or running.
pub proof fn law_one_computation_for_many_slots(state: PreCacherView, slots: Seq<int>, epoch: Epoch)
    requires
        slots.len() > 0,
        forall|i: int|
            0 <= i < slots.len() ==> state.target(#[trigger] slots[i]) == Some(epoch),
        !state.cache.schedules.contains_key(epoch),
        !state.inflight.contains(epoch),
    ensures
        state.after_slots(slots).cache == state.cache,
        state.after_slots(slots).config == state.config,
        state.after_slots(slots).dispatched == state.dispatched.push(epoch),
        state.after_slots(slots).inflight == state.inflight.insert(epoch),
        state.after_slots(slots).stats.triggered_count == raised(state.stats.triggered_count, 1),
        state.after_slots(slots).stats.deduplicated_count == raised(
            state.stats.deduplicated_count,
            slots.len() - 1,
        ),
        state.after_slots(slots).stats.already_cached_count == state.stats.already_cached_count,
    decreases slots.len(),
{
    let fewer = slots.drop_last();
    let before = state.after_slots(fewer);
    assert(state.target(slots[slots.len() - 1]) == Some(epoch));
    if fewer.len() == 0 {
        assert(before == state);
    } else {
        assert forall|i: int| 0 <= i < fewer.len() implies state.target(#[trigger] fewer[i])
            == Some(epoch) by {
            assert(fewer[i] == slots[i]);
        }
        law_one_computation_for_many_slots(state, fewer, epoch);
        assert(before.target(slots.last()) == state.target(slots.last()));
    }
}

/// Slots that ask for a cached epoch are counted, and change nothing else.
pub proof fn law_cached_epoch_is_not_computed_again(
    state: PreCacherView,
    slots: Seq<int>,
    epoch: Epoch,
)
    requires
        forall|i: int|
            0 <= i < slots.len() ==> state.target(#[trigger] slots[i]) == Some(epoch),
        state.cache.schedules.contains_key(epoch),
    ensures
        state.after_slots(slots) == (PreCacherView {
            stats: state.after_slots(slots).stats,
            ..state
        }),
        state.after_slots(slots).stats.already_cached_count == raised(
            state.stats.already_cached_count,
            slots.len() as int,
        ),
        state.after_slots(slots).stats.triggered_count == state.stats.triggered_count,
        state.after_slots(slots).stats.deduplicated_count == state.stats.deduplicated_count,
    decreases slots.len(),
{
    if slots.len() > 0 {
        let fewer = slots.drop_last();
        assert(state.target(slots[slots.len() - 1]) == Some(epoch));
        assert forall|i: int| 0 <= i < fewer.len() implies state.target(#[trigger] fewer[i])
            == Some(epoch) by {
            assert(fewer[i] == slots[i]);
        }
        law_cached_epoch_is_not_computed_again(state, fewer, epoch);
        assert(state.after_slots(fewer).target(slots.last()) == state.target(slots.last()));
    }
}

/// Whatever slots are processed, in whatever order, no epoch is queued a second time, and each
/// queued epoch is in flight. Taking epochs from the queue and ending a computation that was
/// taken keep that.
pub proof fn law_no_epoch_is_queued_twice(
    state: PreCacherView,
    slots: Seq<int>,
    epoch: Epoch,
    outcome: ScheduleOutcome,
    elapsed_us: u64,
)
    requires
        state.queue_is_in_flight(),
    ensures
        state.after_slots(slots).queue_is_in_flight(),
        state.after_take().queue_is_in_flight(),
        !state.dispatched.contains(epoch) ==> state.after_task(
            epoch,
            outcome,
            elapsed_us,
        ).queue_is_in_flight(),
    decreases slots.len(),
{
    if slots.len() > 0 {
        law_no_epoch_is_queued_twice(state, slots.drop_last(), epoch, outcome, elapsed_us);
        let before = state.after_slots(slots.drop_last());
        let after = state.after_slots(slots);
        if before.triggers(slots.last()) {
            let target = before.target(slots.last())->0;
            assert(after.dispatched == before.dispatched.push(target));
            assert forall|i: int| 0 <= i < after.dispatched.len() implies after.inflight.contains(
                #[trigger] after.dispatched[i],
            ) by {
                if i < before.dispatched.len() {
                    assert(after.dispatched[i] == before.dispatched[i]);
                }
            }
            assert(after.dispatched.no_duplicates());
        }
    }
    if !state.dispatched.contains(epoch) {
        let ended = state.after_task(epoch, outcome, elapsed_us);
        assert forall|i: int| 0 <= i < ended.dispatched.len() implies ended.inflight.contains(
            #[trigger] ended.dispatched[i],
        ) by {
            assert(state.inflight.contains(state.dispatched[i]));
            assert(state.dispatched.contains(state.dispatched[i]));
        }
    }
}

/// No more computations run at a time than `max_concurrent_tasks`: no step takes the number past
/// that. Of the queue, as many epochs are taken as may run, the ones that were queued first.
pub proof fn law_no_more_tasks_than_allowed(
    state: PreCacherView,
    slot: int,
    epoch: Epoch,
    outcome: ScheduleOutcome,
    elapsed_us: u64,
)
    requires
        state.running <= state.config.max_concurrent_tasks,
    ensures
        state.after_slot(slot).running == state.running,
        state.after_task(epoch, outcome, elapsed_us).running <= state.running,
        state.after_take().running <= state.config.max_concurrent_tasks,
        state.after_take().running == state.config.max_concurrent_tasks
            || state.after_take().dispatched.len() == 0,
        state.dispatched.take(state.startable()) + state.after_take().dispatched
            == state.dispatched,
{
    assert(state.dispatched.take(state.startable()) + state.dispatched.skip(state.startable())
        =~= state.dispatched);
}

/// The end of a computation takes its epoch out of flight, whatever the outcome, and no other.
pub proof fn law_ended_task_is_not_in_flight(
    state: PreCacherView,
    epoch: Epoch,
    outcome: ScheduleOutcome,
    elapsed_us: u64,
)
    ensures
        state.after_task(epoch, outcome, elapsed_us).inflight == state.inflight.remove(epoch),
        state.after_task(epoch, outcome, elapsed_us).dispatched == state.dispatched,
        state.after_task(epoch, outcome, elapsed_us).config == state.config,
        state.after_task(epoch, outcome, elapsed_us).stats.triggered_count
            == state.stats.triggered_count,
        state.after_task(epoch, outcome, elapsed_us).stats.deduplicated_count
            == state.stats.deduplicated_count,
        state.after_task(epoch, outcome, elapsed_us).stats.already_cached_count
            == state.stats.already_cached_count,
{
}

/// A computation that came to nothing leaves the cache as it was, and the next slot in the window
/// starts it again.
pub proof fn law_failed_task_is_retried(
    state: PreCacherView,
    epoch: Epoch,
    outcome: ScheduleOutcome,
    elapsed_us: u64,
    slot: int,
)
    requires
        !(outcome is Computed),
        state.target(slot) == Some(epoch),
        !state.cache.schedules.contains_key(epoch),
    ensures
        state.after_task(epoch, outcome, elapsed_us).cache == state.cache,
        state.after_task(epoch, outcome, elapsed_us).stats.warmed_count
            == state.stats.warmed_count,
        state.after_task(epoch, outcome, elapsed_us).triggers(slot),
{
    assert(state.after_task(epoch, outcome, elapsed_us).target(slot) == state.target(slot));
}

/// A computed schedule is there for whoever waits for it or asks for it: the wait ends, no slot
/// asks for the epoch any more, and the cache reads back the schedule, or the one that it had.
pub proof fn law_computed_schedule_is_served(
    state: PreCacherView,
    epoch: Epoch,
    schedule: Arc<LeaderSchedule>,
    elapsed_us: u64,
    slot: int,
    before_deadline: bool,
)
    requires
        state.cache.well_formed(),
        state.cache.max_schedules > 0,
    ensures
        ({
            let after = state.after_task(epoch, ScheduleOutcome::Computed(schedule), elapsed_us);
            &&& after.cache.well_formed()
            &&& after.cache.schedules.contains_key(epoch)
            &&& after.cache.schedules[epoch] == (if state.cache.schedules.contains_key(epoch) {
                state.cache.schedules[epoch]
            } else {
                schedule
            })
            &&& after.wait_step(epoch, before_deadline) == WaitStep::Done(true)
            &&& after.warming_due(slot) != Some(epoch)
            &&& !state.cache.schedules.contains_key(epoch) ==> after.cache.max_epoch >= epoch
        }),
{
    crate::cache_laws::law_warming_keeps_the_cache_in_order(state.cache, epoch, schedule);
    if !state.cache.schedules.contains_key(epoch) {
        crate::cache_laws::law_read_gives_back_what_was_warmed(state.cache, epoch, schedule);
    }
}

/// The schedule of an epoch is a function of the vote accounts, of the epoch and of its length:
/// whoever computes it, in the background or in the foreground, comes to the same slot leaders.
pub proof fn law_schedule_follows_from_the_vote_accounts(
    answer: Option<VoteAccountsHashMap>,
    epoch: Epoch,
    len: int,
    one: ScheduleOutcome,
    other: ScheduleOutcome,
)
    requires
        one.comes_of(answer, epoch, len),
        other.comes_of(answer, epoch, len),
    ensures
        match one {
            ScheduleOutcome::Computed(schedule) => other matches ScheduleOutcome::Computed(same)
                && crate::leader_schedule::schedule_slots(*schedule)
                == crate::leader_schedule::schedule_slots(*same),
            ScheduleOutcome::MissingStakes => other is MissingStakes,
            ScheduleOutcome::Failed => other is Failed,
        },
{
}

/// Warming an epoch in the foreground succeeds exactly where it puts the epoch into the cache;
/// where it fails it changes nothing.
pub proof fn law_foreground_warming_succeeds_or_changes_nothing(
    state: PreCacherView,
    epoch: Epoch,
    answer: Option<VoteAccountsHashMap>,
    outcome: ScheduleOutcome,
    result: Result<(), PreCacherError>,
    after: PreCacherView,
)
    requires
        state.cache.well_formed(),
        state.cache.max_schedules > 0,
        !state.cache.schedules.contains_key(epoch),
        state.syncs(epoch, answer, outcome, result, after),
    ensures
        after.cache.well_formed(),
        result is Ok == after.cache.schedules.contains_key(epoch),
        result is Err ==> after == state,
        result == Err::<(), PreCacherError>(PreCacherError::MissingStakeData(epoch))
            <==> answer is None,
{
    if let ScheduleOutcome::Computed(schedule) = outcome {
        crate::cache_laws::law_warming_keeps_the_cache_in_order(state.cache, epoch, schedule);
        crate::cache_laws::law_read_gives_back_what_was_warmed(state.cache, epoch, schedule);
    }
}

/// Without the schedule of the next epoch, every request that starts in the current epoch and
/// reaches into the next one is refused for want of the next epoch's schedule.
pub proof fn law_cold_boundary_refuses_requests(
    cache: CacheView,
    epoch: int,
    slot: int,
    limit: int,
)
    requires
        cache.epoch_schedule.regular(),
        cache.schedule_for(epoch) is Some,
        cache.schedule_for(epoch + 1) is None,
        cache.full(epoch, epoch),
        0 <= slot,
        0 < limit,
        slot + limit <= u64::MAX,
        cache.epoch_schedule.epoch_of(slot) == epoch,
        cache.epoch_schedule.epoch_of(slot + limit - 1) == epoch + 1,
    ensures
        cache.leaders_at(slot, limit) == Err::<Seq<Pubkey>, int>(epoch + 1),
{
    assert(cache.full_for(slot, limit)) by {
        assert forall|e: int| epoch <= e <= epoch + 1 && (#[trigger] cache.schedule_for(e)) is Some
            implies e == epoch by {}
    }
    assert(!cache.has_all(slot, limit));
    crate::rpc_laws::law_request_is_answered_iff_its_epochs_are_cached(cache, slot, limit);
    crate::rpc_laws::law_answer_is_complete_or_names_the_first_missing_epoch(cache, slot, limit);
    let missing = cache.leaders_at(slot, limit)->Err_0;
    if missing > epoch + 1 {
        assert(cache.schedule_for(epoch + 1) is Some);
    }
}

impl PreCacherView {
    /// Whether the slot `tick` has the next epoch computed while the schedule of its own epoch is
    /// cached and will still be after one more epoch came in.
    pub open spec fn starts_warming(self, tick: int) -> bool {
        let epoch = self.cache.epoch_schedule.epoch_of(tick);
        &&& self.cache.well_formed()
        &&& self.cache.fixed_schedule is None
        &&& 0 <= epoch < u64::MAX
        &&& self.triggers(tick)
        &&& self.cache.max_schedules > 0
        &&& CacheView::latest(self.cache.order, self.cache.max_schedules - 1).contains(
            epoch as Epoch,
        )
    }

    /// Whether `outcome` is what comes of vote accounts from which the epoch behind that of `tick`
    /// can be drawn.
    pub open spec fn is_warmed_by(
        self,
        tick: int,
        accounts: VoteAccountsHashMap,
        outcome: ScheduleOutcome,
    ) -> bool {
        let es = self.cache.epoch_schedule;
        let epoch = es.epoch_of(tick) + 1;
        &&& es.slots_in(epoch) <= usize::MAX
        &&& crate::leader_schedule::can_be_drawn(accounts@, es.slots_in(epoch), 4)
        &&& outcome.comes_of(Some(accounts), epoch as Epoch, es.length_of(epoch))
    }

    /// The cache after `tick` was processed and the computation that it started came to its
    /// `outcome`.
    pub open spec fn cache_after_warming(
        self,
        tick: int,
        outcome: ScheduleOutcome,
        elapsed_us: u64,
    ) -> CacheView {
        let epoch = (self.cache.epoch_schedule.epoch_of(tick) + 1) as Epoch;
        self.after_slot(tick).after_task(epoch, outcome, elapsed_us).cache
    }
}

/// After warming, the schedules of the current epoch and of the next one are both there, before
/// and after a slot is rooted.
proof fn lemma_both_schedules_are_there(
    state: PreCacherView,
    tick: int,
    accounts: VoteAccountsHashMap,
    outcome: ScheduleOutcome,
    elapsed_us: u64,
    root: Slot,
)
    requires
        state.starts_warming(tick),
        state.is_warmed_by(tick, accounts, outcome),
    ensures
        ({
            let es = state.cache.epoch_schedule;
            let epoch = es.epoch_of(tick);
            let cache = state.cache_after_warming(tick, outcome, elapsed_us);
            let rooted = cache.rooted(root);
            let whole = crate::leader_schedule::whole_turns(es.slots_in(epoch + 1), 4);
            &&& cache.epoch_schedule == es && rooted.epoch_schedule == es
            &&& state.cache.schedule_for(epoch) is Some
            &&& cache.schedule_for(epoch) == state.cache.schedule_for(epoch)
            &&& rooted.schedule_for(epoch) == state.cache.schedule_for(epoch)
            &&& cache.schedule_for(epoch + 1) matches Some(next)
                && crate::leader_schedule::schedule_slots(next).len() == whole
            &&& rooted.schedule_for(epoch + 1) == cache.schedule_for(epoch + 1)
            &&& state.after_slot(tick).dispatched == state.dispatched.push((epoch + 1) as Epoch)
        }),
{
    let es = state.cache.epoch_schedule;
    let current = es.epoch_of(tick);
    let epoch = (current + 1) as Epoch;
    let cache = state.cache_after_warming(tick, outcome, elapsed_us);
    assert(state.target(tick) == Some(epoch));
    crate::epoch_schedule::lemma_slots_in_is_u64(es, current + 1);
    assert(es.length_of(current + 1) == es.slots_in(current + 1));
    let schedule = outcome->Computed_0;
    crate::cache_laws::law_read_gives_back_what_was_warmed(state.cache, epoch, schedule);
    assert(cache == state.cache.warmed(epoch, schedule));
    lemma_recent_epoch_is_kept(state.cache, epoch, schedule, current as Epoch);
    crate::cache_laws::law_warming_keeps_the_cache_in_order(state.cache, epoch, schedule);
    crate::cache_laws::law_rooting_keeps_the_schedules(cache, root, current);
    crate::cache_laws::law_rooting_keeps_the_schedules(cache, root, current + 1);
}

/// The pre-cacher closes the gap at the epoch boundary. A slot in the warm-up window of an epoch
/// whose schedule is cached, and will still be after one more epoch came in, has the next epoch
/// computed. Once vote accounts from which a schedule can be drawn have been turned into one and
/// handed back, every request within the two epochs is answered in full, whichever slot is rooted
/// meanwhile. The next epoch is one that whole turns of leaders fill: of another one the last
/// slots have no leader.
pub proof fn law_boundary_gap_is_closed(
    state: PreCacherView,
    tick: int,
    accounts: VoteAccountsHashMap,
    outcome: ScheduleOutcome,
    elapsed_us: u64,
    root: Slot,
    slot: int,
    limit: int,
)
    requires
        state.cache.epoch_schedule.regular(),
        state.starts_warming(tick),
        state.is_warmed_by(tick, accounts, outcome),
        ({
            let es = state.cache.epoch_schedule;
            let epoch = es.epoch_of(tick);
            &&& state.cache.full(epoch, epoch)
            &&& es.slots_in(epoch + 1) % 4 == 0
            &&& epoch <= es.epoch_of(slot)
            &&& es.epoch_of(slot + limit - 1) <= epoch + 1
        }),
        0 <= slot,
        0 < limit,
        slot + limit <= u64::MAX,
    ensures
        ({
            let cache = state.cache_after_warming(tick, outcome, elapsed_us);
            &&& state.after_slot(tick).dispatched.last() == state.cache.epoch_schedule.epoch_of(
                tick,
            ) + 1
            &&& cache.leaders_at(slot, limit) matches Ok(leaders) && leaders.len() == limit
            &&& cache.rooted(root).leaders_at(slot, limit) matches Ok(leaders) && leaders.len()
                == limit
        }),
{
    let es = state.cache.epoch_schedule;
    let cache = state.cache_after_warming(tick, outcome, elapsed_us);
    lemma_both_schedules_are_there(state, tick, accounts, outcome, elapsed_us, root);
    crate::epoch_schedule::law_epochs_ascend_with_slots(es, slot, slot + limit - 1);
    lemma_two_epochs_answer(cache, es.epoch_of(tick), slot, limit);
    lemma_two_epochs_answer(cache.rooted(root), es.epoch_of(tick), slot, limit);
}

/// However long the epochs and the current schedule are, once the next epoch is warmed, a request
/// that starts in the current epoch is answered in full as far as the current schedule and the
/// whole turns of leaders in the next epoch reach.
pub proof fn law_boundary_gap_is_closed_as_far_as_turns_reach(
    state: PreCacherView,
    tick: int,
    accounts: VoteAccountsHashMap,
    outcome: ScheduleOutcome,
    elapsed_us: u64,
    root: Slot,
    slot: int,
    limit: int,
)
    requires
        state.starts_warming(tick),
        state.is_warmed_by(tick, accounts, outcome),
        ({
            let es = state.cache.epoch_schedule;
            let epoch = es.epoch_of(tick);
            &&& es.epoch_of(slot) == epoch
            &&& 0 <= es.index_of(slot)
            &&& 0 <= limit <= state.cache.held(epoch, es.index_of(slot))
                + crate::leader_schedule::whole_turns(es.slots_in(epoch + 1), 4)
        }),
    ensures
        ({
            let cache = state.cache_after_warming(tick, outcome, elapsed_us);
            &&& cache.leaders_at(slot, limit) matches Ok(leaders) && leaders.len() == limit
            &&& cache.rooted(root).leaders_at(slot, limit) matches Ok(leaders) && leaders.len()
                == limit
        }),
{
    let cache = state.cache_after_warming(tick, outcome, elapsed_us);
    lemma_both_schedules_are_there(state, tick, accounts, outcome, elapsed_us, root);
    crate::rpc_laws::law_two_schedules_answer_for_the_slots_they_hold(cache, slot, limit);
    crate::rpc_laws::law_two_schedules_answer_for_the_slots_they_hold(
        cache.rooted(root),
        slot,
        limit,
    );
}

/// An epoch among the latest `max_schedules - 1` stays when a new one comes in.
proof fn lemma_recent_epoch_is_kept(
    cache: CacheView,
    epoch: Epoch,
    schedule: Arc<LeaderSchedule>,
    kept: Epoch,
)
    requires
        cache.well_formed(),
        cache.max_schedules > 0,
        !cache.schedules.contains_key(epoch),
        CacheView::latest(cache.order, cache.max_schedules - 1).contains(kept),
    ensures
        cache.schedules.contains_key(kept),
        cache.warmed(epoch, schedule).schedules.contains_key(kept),
        cache.warmed(epoch, schedule).schedules[kept] == cache.schedules[kept],
{
    let recent = CacheView::latest(cache.order, cache.max_schedules - 1);
    let after = cache.warmed(epoch, schedule);
    let i = choose|i: int| 0 <= i < recent.len() && recent[i] == kept;
    let skipped = cache.order.len() - recent.len();
    assert(cache.order[i + skipped] == kept);
    assert(cache.order.to_set().contains(kept));
    let pushed = cache.order.push(epoch);
    assert(pushed[i + skipped] == kept);
    let dropped = pushed.len() - after.order.len();
    assert(after.order[i + skipped - dropped] == kept);
    assert(after.order.to_set().contains(kept));
}

proof fn lemma_two_epochs_answer(cache: CacheView, epoch: int, slot: int, limit: int)
    requires
        cache.epoch_schedule.regular(),
        cache.schedule_for(epoch) is Some,
        cache.schedule_for(epoch + 1) is Some,
        cache.full(epoch, epoch),
        cache.full(epoch + 1, epoch + 1),
        0 <= slot,
        0 < limit,
        slot + limit <= u64::MAX,
        epoch <= cache.epoch_schedule.epoch_of(slot),
        cache.epoch_schedule.epoch_of(slot + limit - 1) <= epoch + 1,
    ensures
        cache.leaders_at(slot, limit) matches Ok(leaders) && leaders.len() == limit,
{
    assert(cache.full_for(slot, limit));
    assert(cache.has_all(slot, limit));
    crate::rpc_laws::law_request_is_answered_iff_its_epochs_are_cached(cache, slot, limit);
    crate::rpc_laws::law_answer_is_complete_or_names_the_first_missing_epoch(cache, slot, limit);
}

} // verus!
