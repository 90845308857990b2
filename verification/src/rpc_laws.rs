//! What holds of the answers to requests for slot leaders.

use crate::leader_schedule::SlotLeader;
use crate::leader_schedule_cache::{lemma_used_through, CacheView};
use crate::rpc_service::{RpcError, RpcResult};
use solana_clock::Epoch;
use solana_pubkey::Pubkey;
use vstd::prelude::*;

verus! {

impl CacheView {
    /// Whether the schedules of the epochs from `first` to `last`, as far as there are any, have
    /// as many slots as their epochs.
    pub open spec fn full(self, first: int, last: int) -> bool {
        forall|epoch: int|
            first <= epoch <= last ==> ((#[trigger] self.schedule_for(epoch)) matches Some(
                schedule,
            ) ==> {
                &&& crate::leader_schedule::schedule_slots(schedule).len()
                    == self.epoch_schedule.slots_in(epoch)
                &&& self.epoch_schedule.slots_in(epoch) <= usize::MAX
            })
    }

    /// Whether the schedules of the epochs that the `limit` slots from `slot` on lie in have as
    /// many slots as their epochs.
    pub open spec fn full_for(self, slot: int, limit: int) -> bool {
        self.full(
            self.epoch_schedule.epoch_of(slot),
            self.epoch_schedule.epoch_of(slot + limit - 1),
        )
    }

    /// How many slots the schedule of `epoch` holds from `index` on.
    pub open spec fn held(self, epoch: int, index: int) -> int {
        match self.schedule_for(epoch) {
            Some(schedule) => {
                let slots = crate::leader_schedule::schedule_slots(schedule);
                if index < slots.len() {
                    slots.len() - index
                } else {
                    0
                }
            },
            None => 0,
        }
    }

    /// Whether there is a schedule for each epoch that the `limit` slots from `slot` on lie in.
    pub open spec fn has_all(self, slot: int, limit: int) -> bool {
        self.reaches(
            self.epoch_schedule.epoch_of(slot),
            self.epoch_schedule.epoch_of(slot + limit - 1),
        )
    }
}

proof fn lemma_answer_length(cache: CacheView, epoch: int, skip: int, limit: int)
    requires
        0 <= skip,
        0 <= limit,
    ensures
        cache.leaders_from(epoch, skip, limit) matches Ok(leaders) ==> leaders.len() == limit,
    decreases u64::MAX - epoch + 1,
{
    if limit > 0 && epoch <= u64::MAX {
        if let Some(schedule) = cache.schedule_for(epoch) {
            let part = CacheView::part(schedule, skip, limit);
            lemma_answer_length(cache, epoch + 1, 0, limit - part.len());
        }
    }
}

proof fn lemma_refusal(cache: CacheView, epoch: int, skip: int, limit: int)
    requires
        0 <= epoch,
        0 <= skip,
        0 <= limit,
    ensures
        cache.leaders_from(epoch, skip, limit) matches Err(missing) ==> {
            &&& epoch <= missing
            &&& cache.schedule_for(missing) is None
            &&& cache.reaches(epoch, missing - 1)
        },
    decreases u64::MAX - epoch + 1,
{
    if limit > 0 && epoch <= u64::MAX {
        if let Some(schedule) = cache.schedule_for(epoch) {
            let part = CacheView::part(schedule, skip, limit);
            lemma_refusal(cache, epoch + 1, 0, limit - part.len());
        }
    }
}

/// A request is answered with as many leaders as were asked for, or refused with the first epoch
/// from the start slot on that has no schedule.
pub proof fn law_answer_is_complete_or_names_the_first_missing_epoch(
    cache: CacheView,
    slot: int,
    limit: int,
)
    requires
        cache.epoch_schedule.regular(),
        0 <= slot <= u64::MAX,
        0 <= limit,
    ensures
        match cache.leaders_at(slot, limit) {
            Ok(leaders) => leaders.len() == limit,
            Err(missing) => {
                &&& cache.epoch_schedule.epoch_of(slot) <= missing
                &&& cache.schedule_for(missing) is None
                &&& cache.reaches(cache.epoch_schedule.epoch_of(slot), missing - 1)
            },
        },
{
    crate::epoch_schedule::law_every_slot_has_a_position(cache.epoch_schedule, slot);
    let epoch = cache.epoch_schedule.epoch_of(slot);
    let index = cache.epoch_schedule.index_of(slot);
    lemma_answer_length(cache, epoch, index, limit);
    lemma_refusal(cache, epoch, index, limit);
}

proof fn lemma_leaders_lead(cache: CacheView, epoch: int, index: int, limit: int, k: int)
    requires
        cache.epoch_schedule.regular(),
        0 <= epoch <= u64::MAX,
        0 <= index,
        index == 0 || index < cache.epoch_schedule.slots_in(epoch),
        0 <= k < limit,
        cache.epoch_schedule.start_of(epoch) + index + limit <= u64::MAX,
        cache.full(
            epoch,
            cache.epoch_schedule.epoch_of(
                cache.epoch_schedule.start_of(epoch) + index + limit - 1,
            ),
        ),
        cache.leaders_from(epoch, index, limit) is Ok,
    ensures
        k < cache.leaders_from(epoch, index, limit)->Ok_0.len(),
        cache.leader_of(cache.epoch_schedule.start_of(epoch) + index + k) matches Some(leader)
            && leader.id == cache.leaders_from(epoch, index, limit)->Ok_0[k],
    decreases u64::MAX - epoch + 1,
{
    let es = cache.epoch_schedule;
    lemma_answer_length(cache, epoch, index, limit);
    let schedule = cache.schedule_for(epoch)->0;
    let slots = crate::leader_schedule::schedule_slots(schedule);
    let ids = slots.map_values(|leader: SlotLeader| leader.id);
    let part = CacheView::part(schedule, index, limit);
    let leaders = cache.leaders_from(epoch, index, limit)->Ok_0;
    let last = es.start_of(epoch) + index + limit - 1;
    crate::epoch_schedule::law_epochs_are_adjacent(es, 0);
    crate::epoch_schedule::law_starts_ascend(es, 0, epoch);
    crate::epoch_schedule::law_slot_lies_between_epoch_starts(es, epoch, last);
    if epoch < u64::MAX {
        crate::epoch_schedule::law_epochs_are_adjacent(es, epoch);
    }
    if k < part.len() {
        assert(leaders[k] == part[k]);
        assert(part[k] == ids[index + k]);
        crate::cache_laws::law_leader_is_the_scheduled_one(cache, epoch, index + k);
    } else {
        let rest = limit - part.len();
        let next = cache.leaders_from(epoch + 1, 0, rest);
        assert(next is Ok);
        assert(cache.schedule_for(epoch + 1) is Some);
        assert(part.len() == es.slots_in(epoch) - index);
        lemma_leaders_lead(cache, epoch + 1, 0, rest, k - part.len());
        assert(leaders[k] == next->Ok_0[k - part.len()]);
    }
}

/// Each leader in an answer is the one that leads its slot, across epoch boundaries.
pub proof fn law_listed_leaders_lead_their_slots(
    cache: CacheView,
    slot: int,
    limit: int,
    leaders: Seq<Pubkey>,
    k: int,
)
    requires
        cache.epoch_schedule.regular(),
        cache.full_for(slot, limit),
        0 <= slot,
        slot + limit <= u64::MAX,
        cache.leaders_at(slot, limit) == Ok::<Seq<Pubkey>, int>(leaders),
        0 <= k < limit,
    ensures
        leaders.len() == limit,
        cache.leader_of(slot + k) matches Some(leader) && leader.id == leaders[k],
{
    crate::epoch_schedule::law_every_slot_has_a_position(cache.epoch_schedule, slot);
    let epoch = cache.epoch_schedule.epoch_of(slot);
    let index = cache.epoch_schedule.index_of(slot);
    lemma_answer_length(cache, epoch, index, limit);
    lemma_leaders_lead(cache, epoch, index, limit, k);
}

proof fn lemma_answered_iff_cached(cache: CacheView, epoch: int, index: int, limit: int)
    requires
        cache.epoch_schedule.regular(),
        cache.full(
            epoch,
            cache.epoch_schedule.epoch_of(
                cache.epoch_schedule.start_of(epoch) + index + limit - 1,
            ),
        ),
        0 <= epoch <= u64::MAX,
        0 <= index,
        index < cache.epoch_schedule.slots_in(epoch),
        0 < limit,
        cache.epoch_schedule.start_of(epoch) + index + limit <= u64::MAX,
    ensures
        cache.leaders_from(epoch, index, limit) is Ok == cache.reaches(
            epoch,
            cache.epoch_schedule.epoch_of(
                cache.epoch_schedule.start_of(epoch) + index + limit - 1,
            ),
        ),
    decreases u64::MAX - epoch + 1,
{
    let es = cache.epoch_schedule;
    let last = es.start_of(epoch) + index + limit - 1;
    let last_epoch = es.epoch_of(last);
    crate::epoch_schedule::law_epochs_are_adjacent(es, 0);
    crate::epoch_schedule::law_starts_ascend(es, 0, epoch);
    crate::epoch_schedule::law_slot_lies_between_epoch_starts(es, epoch, last);
    if cache.schedule_for(epoch) is Some {
        let schedule = cache.schedule_for(epoch)->0;
        let part = CacheView::part(schedule, index, limit);
        let rest = limit - part.len();
        if rest == 0 {
            crate::epoch_schedule::law_position_of_placed_slot(es, epoch, index + limit - 1);
            assert(last_epoch == epoch);
            assert(cache.leaders_from(epoch + 1, 0, rest) is Ok);
        } else {
            assert(part.len() == es.slots_in(epoch) - index);
            assert(epoch < u64::MAX) by {
                if epoch == u64::MAX {
                    crate::epoch_schedule::law_epochs_are_adjacent(es, epoch - 1);
                    crate::epoch_schedule::law_starts_ascend(es, epoch - 1, epoch);
                }
            }
            crate::epoch_schedule::law_epochs_are_adjacent(es, epoch);
            if epoch + 1 < u64::MAX {
                crate::epoch_schedule::law_epochs_are_adjacent(es, epoch + 1);
            }
            lemma_answered_iff_cached(cache, epoch + 1, 0, rest);
            crate::epoch_schedule::law_slot_lies_between_epoch_starts(es, epoch + 1, last);
            assert(cache.reaches(epoch, last_epoch) == cache.reaches(epoch + 1, last_epoch));
        }
    } else {
        assert(!cache.reaches(epoch, last_epoch));
    }
}

/// A request is answered exactly where there is a schedule for each epoch that the slots lie in,
/// so a request across an epoch boundary is answered as soon as the next epoch is warmed.
pub proof fn law_request_is_answered_iff_its_epochs_are_cached(
    cache: CacheView,
    slot: int,
    limit: int,
)
    requires
        cache.epoch_schedule.regular(),
        cache.full_for(slot, limit),
        0 <= slot,
        0 < limit,
        slot + limit <= u64::MAX,
    ensures
        cache.leaders_at(slot, limit) is Ok == cache.has_all(slot, limit),
{
    crate::epoch_schedule::law_every_slot_has_a_position(cache.epoch_schedule, slot);
    lemma_answered_iff_cached(
        cache,
        cache.epoch_schedule.epoch_of(slot),
        cache.epoch_schedule.index_of(slot),
        limit,
    );
}

/// A request can be cut in two: a request for `first + second` slots is answered exactly where the
/// one for the first `first` of them and the one for the other `second` are, with the one list
/// followed by the other.
pub proof fn law_request_can_be_split(cache: CacheView, slot: int, first: int, second: int)
    requires
        cache.epoch_schedule.regular(),
        cache.full_for(slot, first + second),
        0 <= slot,
        0 <= first,
        0 <= second,
        slot + first + second <= u64::MAX,
    ensures
        match cache.leaders_at(slot, first + second) {
            Ok(leaders) => cache.leaders_at(slot, first) matches Ok(earlier) && (cache.leaders_at(
                slot + first,
                second,
            ) matches Ok(later) && leaders == earlier + later),
            Err(_) => cache.leaders_at(slot, first) is Err || cache.leaders_at(
                slot + first,
                second,
            ) is Err,
        },
{
    let es = cache.epoch_schedule;
    if first == 0 || second == 0 {
        if let Ok(leaders) = cache.leaders_at(slot, first + second) {
            assert(Seq::<Pubkey>::empty() + leaders =~= leaders);
            assert(leaders + Seq::<Pubkey>::empty() =~= leaders);
        }
    } else {
        crate::epoch_schedule::law_epochs_ascend_with_slots(es, slot, slot + first - 1);
        crate::epoch_schedule::law_next_slot_skips_no_epoch(es, slot + first - 1);
        crate::epoch_schedule::law_epochs_ascend_with_slots(
            es,
            slot + first,
            slot + first + second - 1,
        );
        assert(cache.full_for(slot, first));
        assert(cache.full_for(slot + first, second));
        law_request_is_answered_iff_its_epochs_are_cached(cache, slot, first + second);
        law_request_is_answered_iff_its_epochs_are_cached(cache, slot, first);
        law_request_is_answered_iff_its_epochs_are_cached(cache, slot + first, second);
        if cache.has_all(slot, first + second) {
            assert(cache.has_all(slot, first) && cache.has_all(slot + first, second));
            let leaders = cache.leaders_at(slot, first + second)->Ok_0;
            let earlier = cache.leaders_at(slot, first)->Ok_0;
            let later = cache.leaders_at(slot + first, second)->Ok_0;
            law_answer_is_complete_or_names_the_first_missing_epoch(cache, slot, first + second);
            law_answer_is_complete_or_names_the_first_missing_epoch(cache, slot, first);
            law_answer_is_complete_or_names_the_first_missing_epoch(cache, slot + first, second);
            assert forall|k: int| 0 <= k < first + second implies #[trigger] leaders[k] == (earlier
                + later)[k] by {
                law_listed_leaders_lead_their_slots(cache, slot, first + second, leaders, k);
                if k < first {
                    law_listed_leaders_lead_their_slots(cache, slot, first, earlier, k);
                } else {
                    law_listed_leaders_lead_their_slots(
                        cache,
                        slot + first,
                        second,
                        later,
                        k - first,
                    );
                }
            }
            assert(leaders =~= earlier + later);
        } else if cache.has_all(slot, first) && cache.has_all(slot + first, second) {
            assert forall|e: int|
                es.epoch_of(slot) <= e <= es.epoch_of(
                    slot + first + second - 1,
                ) implies (#[trigger] cache.schedule_for(e)) is Some by {}
        }
    }
}

/// A request that starts in an epoch is answered from that epoch's schedule and the next one's as
/// far as these hold slots from the start on, however long the epochs are; where they hold fewer
/// and the epoch behind has no schedule, it is refused for want of that.
pub proof fn law_two_schedules_answer_for_the_slots_they_hold(
    cache: CacheView,
    slot: int,
    limit: int,
)
    requires
        0 <= cache.epoch_schedule.epoch_of(slot),
        0 <= cache.epoch_schedule.index_of(slot),
        0 <= limit,
        cache.schedule_for(cache.epoch_schedule.epoch_of(slot)) is Some,
        cache.schedule_for(cache.epoch_schedule.epoch_of(slot) + 1) is Some,
    ensures
        ({
            let epoch = cache.epoch_schedule.epoch_of(slot);
            let held = cache.held(epoch, cache.epoch_schedule.index_of(slot)) + cache.held(
                epoch + 1,
                0,
            );
            if limit <= held {
                cache.leaders_at(slot, limit) matches Ok(leaders) && leaders.len() == limit
            } else {
                cache.schedule_for(epoch + 2) is None ==> cache.leaders_at(slot, limit) == Err::<
                    Seq<Pubkey>,
                    int,
                >(epoch + 2)
            }
        }),
{
    let epoch = cache.epoch_schedule.epoch_of(slot);
    let index = cache.epoch_schedule.index_of(slot);
    let rest = limit - CacheView::part(cache.schedule_for(epoch)->0, index, limit).len();
    let left = rest - CacheView::part(cache.schedule_for(epoch + 1)->0, 0, rest).len();
    lemma_answer_length(cache, epoch, index, limit);
    assert(cache.leaders_from(epoch + 1, 0, rest) is Ok == (rest <= 0 || cache.leaders_from(
        epoch + 2,
        0,
        left,
    ) is Ok));
}

proof fn lemma_cached_walk_ends(cache: CacheView, epoch: int, skip: int, limit: int)
    requires
        cache.fixed_schedule is None,
        !cache.schedules.contains_key(u64::MAX),
        0 <= epoch <= u64::MAX,
    ensures
        cache.walk_ends(epoch, skip, limit),
    decreases u64::MAX - epoch + 1,
{
    if epoch < u64::MAX && limit > 0 {
        if let Some(schedule) = cache.schedule_for(epoch) {
            lemma_cached_walk_ends(
                cache,
                epoch + 1,
                0,
                limit - CacheView::part(schedule, skip, limit).len(),
            );
        }
    }
}

proof fn lemma_fixed_walk_ends(cache: CacheView, epoch: int, limit: int)
    requires
        cache.fixed_schedule matches Some(fixed)
            && crate::leader_schedule::schedule_slots(*fixed).len() > 0,
        0 <= epoch,
        epoch + limit <= u64::MAX,
    ensures
        cache.walk_ends(epoch, 0, limit),
    decreases u64::MAX - epoch + 1,
{
    if limit > 0 {
        let part = CacheView::part(cache.schedule_for(epoch)->0, 0, limit);
        assert(part.len() > 0);
        lemma_fixed_walk_ends(cache, epoch + 1, limit - part.len());
    }
}

/// Every request can be answered from a cache without a fixed schedule whose epochs do not reach
/// the largest number, and from a fixed schedule that is not empty unless the request reaches the
/// largest epoch.
pub proof fn law_requests_can_be_answered(cache: CacheView, slot: int, limit: int)
    requires
        cache.epoch_schedule.regular(),
        0 <= slot <= u64::MAX,
        0 <= limit,
        match cache.fixed_schedule {
            Some(fixed) => crate::leader_schedule::schedule_slots(*fixed).len() > 0
                && cache.epoch_schedule.epoch_of(slot) + limit < u64::MAX,
            None => !cache.schedules.contains_key(u64::MAX),
        },
    ensures
        cache.can_list(slot, limit),
{
    crate::epoch_schedule::law_every_slot_has_a_position(cache.epoch_schedule, slot);
    let epoch = cache.epoch_schedule.epoch_of(slot);
    let index = cache.epoch_schedule.index_of(slot);
    if cache.fixed_schedule is Some {
        let part = CacheView::part(cache.schedule_for(epoch)->0, index, limit);
        lemma_fixed_walk_ends(cache, epoch + 1, limit - part.len());
    } else {
        lemma_cached_walk_ends(cache, epoch, index, limit);
    }
}

proof fn lemma_order_plays_no_part(
    cache: CacheView,
    other: CacheView,
    epoch: int,
    skip: int,
    limit: int,
)
    requires
        other == (CacheView { order: other.order, ..cache }),
        0 <= limit,
    ensures
        other.leaders_from(epoch, skip, limit) == cache.leaders_from(epoch, skip, limit),
        other.walk_ends(epoch, skip, limit) == cache.walk_ends(epoch, skip, limit),
    decreases u64::MAX - epoch + 1,
{
    assert(other.schedule_for(epoch) == cache.schedule_for(epoch));
    if limit > 0 && epoch <= u64::MAX {
        if let Some(schedule) = cache.schedule_for(epoch) {
            let part = CacheView::part(schedule, skip, limit);
            if part.len() <= limit {
                lemma_order_plays_no_part(cache, other, epoch + 1, 0, limit - part.len());
            }
        }
    }
}

/// Asking again gives the same answer: what a request looks up changes no answer.
pub proof fn law_repeated_request_is_answered_alike(
    cache: CacheView,
    asked_slot: int,
    asked_limit: int,
    slot: int,
    limit: int,
)
    requires
        cache.well_formed(),
        0 <= limit,
    ensures
        cache.after_listing(asked_slot, asked_limit).leaders_at(slot, limit) == cache.leaders_at(
            slot,
            limit,
        ),
        cache.after_listing(asked_slot, asked_limit).can_list(slot, limit) == cache.can_list(
            slot,
            limit,
        ),
{
    let epoch = cache.epoch_schedule.epoch_of(asked_slot);
    let stop = cache.walk_stop(epoch, cache.epoch_schedule.index_of(asked_slot), asked_limit);
    lemma_used_through(cache, epoch, stop);
    lemma_order_plays_no_part(
        cache,
        cache.after_listing(asked_slot, asked_limit),
        cache.epoch_schedule.epoch_of(slot),
        cache.epoch_schedule.index_of(slot),
        limit,
    );
}

impl CacheView {
    /// How many slots the schedules of the epochs from `epoch` up to but not including `to` hold,
    /// from index `skip` of the first one on.
    pub open spec fn held_up_to(self, epoch: int, skip: int, to: int) -> int
        decreases to - epoch,
    {
        if to <= epoch {
            0
        } else {
            self.held_up_to(epoch, skip, to - 1) + self.held(
                to - 1,
                if to - 1 == epoch {
                    skip
                } else {
                    0
                },
            )
        }
    }
}

/// What the first schedule holds comes before what the others hold.
proof fn lemma_held_from_the_front(cache: CacheView, epoch: int, skip: int, to: int)
    requires
        epoch < to,
    ensures
        cache.held_up_to(epoch, skip, to) == cache.held(epoch, skip) + cache.held_up_to(
            epoch + 1,
            0,
            to,
        ),
    decreases to - epoch,
{
    if to - 1 > epoch {
        lemma_held_from_the_front(cache, epoch, skip, to - 1);
    } else {
        assert(cache.held_up_to(epoch, skip, to - 1) == 0);
    }
}

proof fn lemma_walk(cache: CacheView, epoch: int, skip: int, limit: int)
    requires
        0 <= epoch <= u64::MAX + 1,
        0 <= skip,
        0 <= limit,
    ensures
        ({
            let stop = cache.walk_stop(epoch, skip, limit);
            let held = cache.held_up_to(epoch, skip, stop);
            &&& epoch <= stop <= u64::MAX + 1
            &&& forall|e: int| epoch <= e < stop ==> (#[trigger] cache.schedule_for(e)) is Some
            &&& held < limit ==> cache.schedule_for(stop) is None
            &&& stop > epoch ==> cache.held_up_to(epoch, skip, stop - 1) < limit
            &&& held >= limit ==> (cache.leaders_from(epoch, skip, limit) matches Ok(leaders)
                && leaders.len() == limit)
            &&& held < limit ==> cache.leaders_from(epoch, skip, limit) == Err::<Seq<Pubkey>, int>(
                stop,
            )
            &&& cache.walk_ends(epoch, skip, limit) <==> stop <= u64::MAX || limit == 0
        }),
    decreases u64::MAX - epoch + 1,
{
    if limit > 0 && epoch <= u64::MAX {
        if let Some(schedule) = cache.schedule_for(epoch) {
            let part = CacheView::part(schedule, skip, limit);
            let rest = limit - part.len();
            lemma_walk(cache, epoch + 1, 0, rest);
            let stop = cache.walk_stop(epoch + 1, 0, rest);
            lemma_held_from_the_front(cache, epoch, skip, stop);
            if stop > epoch + 1 {
                lemma_held_from_the_front(cache, epoch, skip, stop - 1);
            } else {
                assert(cache.held_up_to(epoch, skip, epoch) == 0);
            }
        }
    }
}

/// A walk over the epochs goes on until the schedules hold as many slots as were asked for, and no
/// further, or until there is no schedule. A request is answered, with as many leaders as were
/// asked for, exactly in the first case; else it is refused for want of the epoch that the walk
/// stops at. It can be answered one way or the other unless the walk uses up the epoch numbers.
pub proof fn law_walk_goes_as_far_as_it_must(cache: CacheView, slot: int, limit: int)
    requires
        0 <= slot,
        0 <= limit,
        cache.epoch_schedule.epoch_of(slot) <= u64::MAX,
    ensures
        ({
            let epoch = cache.epoch_schedule.epoch_of(slot);
            let skip = cache.epoch_schedule.index_of(slot);
            let stop = cache.walk_stop(epoch, skip, limit);
            let held = cache.held_up_to(epoch, skip, stop);
            &&& epoch <= stop
            &&& forall|e: int| epoch <= e < stop ==> (#[trigger] cache.schedule_for(e)) is Some
            &&& held < limit ==> cache.schedule_for(stop) is None
            &&& stop > epoch ==> cache.held_up_to(epoch, skip, stop - 1) < limit
            &&& match cache.leaders_at(slot, limit) {
                Ok(leaders) => held >= limit && leaders.len() == limit,
                Err(missing) => held < limit && missing == stop,
            }
            &&& cache.can_list(slot, limit) <==> (slot >= cache.epoch_schedule.first_normal_slot
                || slot + 33 <= 0x8000_0000_0000_0000) && (stop <= u64::MAX || limit == 0)
        }),
{
    crate::epoch_schedule::lemma_position_is_not_negative(cache.epoch_schedule, slot);
    lemma_walk(
        cache,
        cache.epoch_schedule.epoch_of(slot),
        cache.epoch_schedule.index_of(slot),
        limit,
    );
}

proof fn lemma_listed_place(
    cache: CacheView,
    epoch: int,
    skip: int,
    limit: int,
    at: int,
    index: int,
)
    requires
        0 <= epoch <= at <= u64::MAX,
        0 <= skip,
        at == epoch ==> skip <= index,
        0 <= index,
        forall|e: int| epoch <= e <= at ==> (#[trigger] cache.schedule_for(e)) is Some,
        index < crate::leader_schedule::schedule_slots(cache.schedule_for(at)->0).len(),
        cache.held_up_to(epoch, skip, at) + index - (if at == epoch {
            skip
        } else {
            0
        }) < limit,
    ensures
        cache.leaders_from(epoch, skip, limit) matches Ok(leaders) ==> leaders[cache.held_up_to(
            epoch,
            skip,
            at,
        ) + index - (if at == epoch {
            skip
        } else {
            0
        })] == crate::leader_schedule::schedule_slots(cache.schedule_for(at)->0)[index].id,
    decreases at - epoch,
{
    let schedule = cache.schedule_for(epoch)->0;
    let part = CacheView::part(schedule, skip, limit);
    let rest = limit - part.len();
    lemma_held_is_not_negative(cache, epoch, skip, at);
    if at == epoch {
        assert(cache.held_up_to(epoch, skip, at) == 0);
        if let Ok(others) = cache.leaders_from(epoch + 1, 0, rest) {
            assert((part + others)[index - skip] == part[index - skip]);
        }
    } else {
        lemma_held_from_the_front(cache, epoch, skip, at);
        lemma_held_is_not_negative(cache, epoch + 1, 0, at);
        assert(part.len() == cache.held(epoch, skip));
        assert(cache.held_up_to(epoch + 1, 0, epoch + 1) == 0);
        lemma_listed_place(cache, epoch + 1, 0, rest, at, index);
        if let Ok(others) = cache.leaders_from(epoch + 1, 0, rest) {
            let k = cache.held_up_to(epoch + 1, 0, at) + index;
            lemma_answer_length(cache, epoch + 1, 0, rest);
            assert((part + others)[part.len() + k] == others[k]);
        }
    }
}

proof fn lemma_held_is_not_negative(cache: CacheView, epoch: int, skip: int, to: int)
    requires
        0 <= skip,
    ensures
        0 <= cache.held_up_to(epoch, skip, to),
    decreases to - epoch,
{
    if epoch < to {
        lemma_held_is_not_negative(cache, epoch, skip, to - 1);
    }
}

/// An answer lists the leaders schedule by schedule, whatever the epochs look like: the leader at
/// an index of an epoch's schedule comes behind as many others as the schedules before it hold
/// from the start slot on, and as its own schedule holds before that index.
pub proof fn law_answer_lists_schedule_by_schedule(
    cache: CacheView,
    slot: int,
    limit: int,
    leaders: Seq<Pubkey>,
    epoch: int,
    index: int,
    before: int,
)
    requires
        0 <= slot,
        cache.leaders_at(slot, limit) == Ok::<Seq<Pubkey>, int>(leaders),
        cache.epoch_schedule.epoch_of(slot) <= epoch <= u64::MAX,
        epoch == cache.epoch_schedule.epoch_of(slot) ==> cache.epoch_schedule.index_of(slot)
            <= index && before == index - cache.epoch_schedule.index_of(slot),
        epoch > cache.epoch_schedule.epoch_of(slot) ==> before == cache.held_up_to(
            cache.epoch_schedule.epoch_of(slot),
            cache.epoch_schedule.index_of(slot),
            epoch,
        ) + index,
        0 <= index,
        forall|e: int|
            cache.epoch_schedule.epoch_of(slot) <= e <= epoch ==> (#[trigger] cache.schedule_for(
                e,
            )) is Some,
        index < crate::leader_schedule::schedule_slots(cache.schedule_for(epoch)->0).len(),
        before < limit,
    ensures
        leaders[before] == crate::leader_schedule::schedule_slots(
            cache.schedule_for(epoch)->0,
        )[index].id,
{
    crate::epoch_schedule::lemma_position_is_not_negative(cache.epoch_schedule, slot);
    let start = cache.epoch_schedule.epoch_of(slot);
    let skip = cache.epoch_schedule.index_of(slot);
    assert(cache.held_up_to(start, skip, start) == 0);
    lemma_listed_place(cache, start, skip, limit, epoch, index);
}

/// A request uses every epoch that its walk comes to: these are the most recently used from then
/// on, in ascending order, and the others keep their order. Under a fixed schedule nothing
/// changes.
pub proof fn law_request_uses_the_epochs_it_comes_to(cache: CacheView, slot: int, limit: int)
    requires
        cache.well_formed(),
        0 <= slot,
        0 <= limit,
        cache.epoch_schedule.epoch_of(slot) <= u64::MAX,
    ensures
        ({
            let from = cache.epoch_schedule.epoch_of(slot);
            let to = cache.walk_stop(from, cache.epoch_schedule.index_of(slot), limit);
            let after = cache.after_listing(slot, limit);
            &&& cache.fixed_schedule is Some ==> after == cache
            &&& cache.fixed_schedule is None ==> after == (CacheView {
                order: cache.order.filter(|e: Epoch| !(from <= e < to)) + Seq::new(
                    (to - from) as nat,
                    |i: int| (from + i) as Epoch,
                ),
                ..cache
            })
        }),
{
    let from = cache.epoch_schedule.epoch_of(slot);
    let skip = cache.epoch_schedule.index_of(slot);
    let to = cache.walk_stop(from, skip, limit);
    crate::epoch_schedule::lemma_position_is_not_negative(cache.epoch_schedule, slot);
    lemma_walk(cache, from, skip, limit);
    lemma_used_through(cache, from, to);
    if cache.fixed_schedule is None {
        assert forall|e: int| from <= e < to implies cache.schedules.contains_key(
            #[trigger] (e as Epoch),
        ) by {
            assert(cache.schedule_for(e) is Some);
        }
        crate::lookup_laws::law_lookups_move_the_epochs_behind_the_others(cache, from, to);
    }
}

/// A result answers a request where it holds the leaders that the schedules give, or else refuses
/// with code -32602 and a message that names the epoch for want of which it does.
pub proof fn law_what_answers_a_request(
    cache: CacheView,
    slot: int,
    limit: int,
    result: RpcResult<Vec<Pubkey>>,
)
    requires
        cache.answers(slot, limit, result),
    ensures
        match result {
            Ok(leaders) => cache.leaders_at(slot, limit) == Ok::<Seq<Pubkey>, int>(leaders@),
            Err(RpcError::InvalidParams { code, message }) => cache.leaders_at(
                slot,
                limit,
            ) matches Err(epoch) && code == -32602 && message@
                == "Invalid slot range: leader schedule for epoch "@ + crate::decimal::decimal(
                epoch as nat,
            ) + " is unavailable"@,
        },
{
}

/// An error is shown with its code and its message.
pub proof fn law_error_shows_code_and_message(code: int, message: Seq<char>)
    ensures
        RpcError::text(code, message) == "RPC response error "@ + crate::decimal::signed_decimal(
            code,
        ) + ": "@ + message,
{
}

} // verus!
