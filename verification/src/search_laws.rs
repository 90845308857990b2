//! What holds of the leader slots that a search finds.

use crate::epoch_schedule::EpochSchedule;
use crate::leader_schedule_cache::{lemma_used_through, CacheView};
use solana_clock::Epoch;
use solana_leader_schedule::LeaderSchedule;
use solana_pubkey::Pubkey;
use vstd::prelude::*;

verus! {

impl CacheView {
    /// Whether `leader` leads `slot` by the schedules at hand.
    pub open spec fn leads_slot(self, leader: Pubkey, slot: int) -> bool {
        self.can_look_up(slot) && (self.leader_of(slot) matches Some(found) && found.id == leader)
    }

    /// Whether a search from `epoch` on comes to `slot`.
    pub open spec fn searched(self, epoch: int, slot: int) -> bool {
        &&& 0 <= slot <= u64::MAX
        &&& epoch <= self.epoch_schedule.epoch_of(slot) <= self.max_epoch
        &&& self.reaches(epoch, self.epoch_schedule.epoch_of(slot))
    }
}

/// The led slots of an epoch ascend, are led, and none is left out.
proof fn lemma_led_slots(
    schedule: LeaderSchedule,
    leader: Pubkey,
    from: int,
    bound: int,
    base: int,
)
    ensures
        ({
            let slots = CacheView::led_slots(schedule, leader, from, bound, base);
            &&& forall|i: int|
                0 <= i < slots.len() ==> base + from <= #[trigger] slots[i] < base + bound
                    && crate::leader_schedule::leads(schedule, leader, slots[i] - base)
            &&& forall|i: int, j: int| 0 <= i < j < slots.len() ==> slots[i] < slots[j]
            &&& forall|index: int|
                from <= index < bound && #[trigger] crate::leader_schedule::leads(
                    schedule,
                    leader,
                    index,
                ) ==> slots.contains(base + index)
        }),
    decreases bound - from,
{
    let slots = CacheView::led_slots(schedule, leader, from, bound, base);
    if from < bound {
        let rest = CacheView::led_slots(schedule, leader, from + 1, bound, base);
        lemma_led_slots(schedule, leader, from + 1, bound, base);
        if crate::leader_schedule::leads(schedule, leader, from) {
            assert(slots =~= seq![base + from] + rest);
            assert forall|i: int| 0 <= i < slots.len() implies base + from <= #[trigger] slots[i]
                < base + bound && crate::leader_schedule::leads(
                schedule,
                leader,
                slots[i] - base,
            ) by {
                if i > 0 {
                    assert(slots[i] == rest[i - 1]);
                }
            }
            assert forall|i: int, j: int| 0 <= i < j < slots.len() implies slots[i] < slots[j] by {
                assert(slots[j] == rest[j - 1]);
                if i > 0 {
                    assert(slots[i] == rest[i - 1]);
                }
            }
            assert forall|index: int|
                from <= index < bound && #[trigger] crate::leader_schedule::leads(
                    schedule,
                    leader,
                    index,
                ) implies slots.contains(base + index) by {
                if index == from {
                    assert(slots[0] == base + index);
                } else {
                    let k = choose|k: int| 0 <= k < rest.len() && rest[k] == base + index;
                    assert(slots[k + 1] == base + index);
                }
            }
        }
    }
}

/// What the schedule of an epoch says of an index is what the cache says of the slot.
proof fn lemma_led_index_is_led_slot(cache: CacheView, leader: Pubkey, epoch: int, index: int)
    requires
        cache.epoch_schedule.regular(),
        cache.schedule_for(epoch) is Some,
        cache.fits(epoch),
        0 <= index < cache.epoch_schedule.slots_in(epoch),
        cache.epoch_schedule.start_of(epoch) + index <= u64::MAX,
    ensures
        cache.epoch_schedule.first_slot_in(epoch) == cache.epoch_schedule.start_of(epoch),
        cache.epoch_schedule.epoch_of(cache.epoch_schedule.start_of(epoch) + index) == epoch,
        cache.leads_slot(leader, cache.epoch_schedule.start_of(epoch) + index)
            == crate::leader_schedule::leads(cache.schedule_for(epoch)->0, leader, index),
{
    let es = cache.epoch_schedule;
    crate::epoch_schedule::law_epochs_are_adjacent(es, epoch);
    crate::epoch_schedule::law_position_of_placed_slot(es, epoch, index);
}

/// The slots below the largest `u64` that a search comes to ascend, are led and come before all
/// others, and none is left out.
proof fn lemma_upcoming(cache: CacheView, leader: Pubkey, epoch: int, from: int)
    requires
        cache.epoch_schedule.regular(),
        cache.search_fits(epoch),
        0 <= epoch <= u64::MAX,
        0 <= from < cache.epoch_schedule.slots_in(epoch),
    ensures
        ({
            let slots = cache.upcoming(leader, epoch, from);
            let start = cache.epoch_schedule.start_of(epoch) + from;
            &&& forall|i: int|
                0 <= i < slots.len() && #[trigger] slots[i] < u64::MAX ==> start <= slots[i]
                    && cache.leads_slot(leader, slots[i]) && cache.searched(epoch, slots[i])
            &&& forall|i: int, j: int|
                0 <= i < j < slots.len() && slots[j] < u64::MAX ==> slots[i] < slots[j]
            &&& forall|slot: int|
                start <= slot && #[trigger] cache.searched(epoch, slot) && cache.leads_slot(
                    leader,
                    slot,
                ) ==> slots.contains(slot)
        }),
    decreases cache.max_epoch - epoch + 1,
{
    let es = cache.epoch_schedule;
    let slots = cache.upcoming(leader, epoch, from);
    let start = es.start_of(epoch) + from;
    if epoch <= cache.max_epoch && cache.schedule_for(epoch) is Some {
        let schedule = cache.schedule_for(epoch)->0;
        assert(cache.reaches(epoch, epoch));
        assert(cache.fits(epoch));
        crate::epoch_schedule::law_epochs_are_adjacent(es, epoch);
        let base = es.first_slot_in(epoch);
        let length = es.slots_in(epoch);
        let here = CacheView::led_slots(schedule, leader, from, length, base);
        let next = cache.upcoming(leader, epoch + 1, 0);
        assert(slots == here + next);
        lemma_led_slots(schedule, leader, from, length, base);
        if epoch < u64::MAX {
            assert forall|e: int|
                epoch + 1 <= e <= cache.max_epoch && #[trigger] cache.reaches(
                    epoch + 1,
                    e,
                ) implies cache.fits(e) by {
                assert(cache.reaches(epoch, e));
            }
            crate::epoch_schedule::law_epochs_are_adjacent(es, epoch + 1);
            lemma_upcoming(cache, leader, epoch + 1, 0);
        } else {
            assert(next.len() == 0);
        }
        assert forall|i: int| 0 <= i < slots.len() && #[trigger] slots[i] < u64::MAX implies start
            <= slots[i] && cache.leads_slot(leader, slots[i]) && cache.searched(epoch, slots[i]) by {
            if i < here.len() {
                assert(slots[i] == here[i]);
                lemma_led_index_is_led_slot(cache, leader, epoch, here[i] - base);
            } else {
                assert(slots[i] == next[i - here.len()]);
                assert(cache.searched(epoch + 1, slots[i]));
            }
        }
        assert forall|i: int, j: int|
            0 <= i < j < slots.len() && slots[j] < u64::MAX implies slots[i] < slots[j] by {
            if j < here.len() {
                assert(slots[i] == here[i] && slots[j] == here[j]);
            } else if i < here.len() {
                assert(slots[i] == here[i] && slots[j] == next[j - here.len()]);
                assert(es.start_of(epoch + 1) <= slots[j]);
            } else {
                assert(slots[i] == next[i - here.len()] && slots[j] == next[j - here.len()]);
            }
        }
        assert forall|slot: int|
            start <= slot && #[trigger] cache.searched(epoch, slot) && cache.leads_slot(
                leader,
                slot,
            ) implies slots.contains(slot) by {
            crate::epoch_schedule::law_every_slot_has_a_position(es, slot);
            if es.epoch_of(slot) == epoch {
                let index = es.index_of(slot);
                lemma_led_index_is_led_slot(cache, leader, epoch, index);
                assert(here.contains(base + index));
                let k = choose|k: int| 0 <= k < here.len() && here[k] == slot;
                assert(slots[k] == slot);
            } else {
                crate::epoch_schedule::law_slot_lies_between_epoch_starts(es, epoch + 1, slot);
                assert(cache.searched(epoch + 1, slot));
                let k = choose|k: int| 0 <= k < next.len() && next[k] == slot;
                assert(slots[here.len() + k] == slot);
            }
        }
    } else {
        assert forall|slot: int| #[trigger] cache.searched(epoch, slot) implies false by {
            assert(cache.schedule_for(epoch) is Some);
        }
    }
}

/// A run is as long as its slots follow one another below the limit.
proof fn lemma_run(slots: Seq<int>, limit: int, n: int)
    requires
        1 <= n <= slots.len(),
    ensures
        ({
            let length = CacheView::run_length(slots, limit, n);
            &&& n <= length <= slots.len()
            &&& forall|i: int|
                n <= i < length ==> #[trigger] slots[i] == slots[0] + i && slots[i] < limit
            &&& length < slots.len() ==> slots[length] != slots[0] + length || slots[length]
                >= limit
        }),
    decreases slots.len() - n,
{
    if n < slots.len() && slots[n] == slots[0] + n && slots[n] < limit {
        lemma_run(slots, limit, n + 1);
    }
}

/// A search finds the first slot after `slot` that the leader leads, wherever the schedules reach
/// it, across epoch boundaries too, and the unbroken run of led slots that starts there: each
/// slot of the run is led and lies in a confirmed epoch, each slot between `slot` and the run has
/// a leader and is not led by this one, the run ends within `range` slots, and a run that ends
/// before that ends because the next slot is not confirmed or not led. It finds nothing exactly
/// where no slot that it comes to is led.
pub proof fn law_search_finds_the_next_run(
    cache: CacheView,
    leader: Pubkey,
    slot: int,
    range: int,
)
    requires
        cache.epoch_schedule.regular(),
        0 <= slot < u64::MAX,
        0 <= range <= u64::MAX,
        cache.search_fits(cache.epoch_schedule.epoch_of(slot + 1)),
        cache.next_led(leader, slot, range) matches Some((first, _)) ==> first < u64::MAX,
    ensures
        match cache.next_led(leader, slot, range) {
            Some((first, last)) => {
                &&& slot < first <= last < u64::MAX
                &&& last == first || last < EpochSchedule::capped(first + range)
                &&& cache.confirms(last)
                &&& forall|s: int| first <= s <= last ==> cache.leads_slot(leader, s)
                &&& forall|s: int|
                    slot < s < first ==> !cache.leads_slot(leader, s) && cache.leader_of(s) is Some
                &&& last + 1 >= EpochSchedule::capped(first + range) || !cache.confirms(last + 1)
                    || !cache.leads_slot(leader, last + 1)
            },
            None => true,
        },
        cache.next_led(leader, slot, range) is None <==> forall|s: int|
            slot < s && #[trigger] cache.searched(cache.epoch_schedule.epoch_of(slot + 1), s)
                ==> !cache.leads_slot(leader, s),
{
    let es = cache.epoch_schedule;
    let epoch = es.epoch_of(slot + 1);
    let from = es.index_of(slot + 1);
    crate::epoch_schedule::law_every_slot_has_a_position(es, slot + 1);
    let slots = cache.upcoming(leader, epoch, from);
    lemma_upcoming(cache, leader, epoch, from);
    if cache.next_led(leader, slot, range) is Some {
        let limit = EpochSchedule::capped(slots[0] + range);
        lemma_run(slots, limit, 1);
        let length = CacheView::run_length(slots, limit, 1);
        let first = slots[0];
        let last = first + length - 1;
        assert(slots[length - 1] == last);
        assert(cache.searched(epoch, last));
        assert forall|s: int| first <= s <= last implies cache.leads_slot(leader, s) by {
            let i = s - first;
            assert(slots[i] == s);
        }
        assert(cache.searched(epoch, first));
        assert forall|s: int| slot < s < first implies !cache.leads_slot(leader, s)
            && cache.leader_of(s) is Some by {
            crate::epoch_schedule::law_epochs_ascend_with_slots(es, slot + 1, s);
            crate::epoch_schedule::law_epochs_ascend_with_slots(es, s, first);
            assert(cache.schedule_for(es.epoch_of(s)) is Some);
            assert(cache.searched(epoch, s));
            if cache.leads_slot(leader, s) {
                let i = choose|i: int| 0 <= i < slots.len() && slots[i] == s;
                assert(i == 0 || slots[0] < slots[i]);
            }
        }
        if last + 1 < limit && cache.confirms(last + 1) && cache.leads_slot(leader, last + 1) {
            lemma_next_slot_is_searched(cache, epoch, last);
            let i = choose|i: int| 0 <= i < slots.len() && slots[i] == last + 1;
            assert(i >= length) by {
                if i < length {
                    assert(i == length - 1 || slots[i] < slots[length - 1]);
                }
            }
            assert(i == length || slots[length] < slots[i]);
            assert(slots[length] < u64::MAX);
            assert(slots[length - 1] < slots[length]);
        }
    }
}

/// The slot behind a searched one is searched too, if it is confirmed and has a leader.
proof fn lemma_next_slot_is_searched(cache: CacheView, epoch: int, slot: int)
    requires
        cache.epoch_schedule.regular(),
        cache.searched(epoch, slot),
        slot < u64::MAX,
        cache.confirms(slot + 1),
        cache.leader_of(slot + 1) is Some,
    ensures
        cache.searched(epoch, slot + 1),
{
    let es = cache.epoch_schedule;
    crate::epoch_schedule::law_next_slot_skips_no_epoch(es, slot);
    assert forall|e: int| epoch <= e <= es.epoch_of(slot + 1) implies (#[trigger] cache.schedule_for(
        e,
    )) is Some by {}
}

/// What a search comes to lies before the first epoch that is not confirmed.
proof fn lemma_upcoming_is_confirmed(cache: CacheView, leader: Pubkey, epoch: int, from: int)
    requires
        cache.epoch_schedule.regular(),
        0 <= epoch,
        cache.epoch_schedule.start_of(cache.max_epoch + 1) <= u64::MAX,
    ensures
        forall|i: int|
            0 <= i < cache.upcoming(leader, epoch, from).len() ==> #[trigger] cache.upcoming(
                leader,
                epoch,
                from,
            )[i] < u64::MAX,
    decreases cache.max_epoch - epoch + 1,
{
    let es = cache.epoch_schedule;
    if epoch <= cache.max_epoch && cache.schedule_for(epoch) is Some {
        let here = CacheView::led_slots(
            cache.schedule_for(epoch)->0,
            leader,
            from,
            es.slots_in(epoch),
            es.first_slot_in(epoch),
        );
        let next = cache.upcoming(leader, epoch + 1, 0);
        lemma_led_slots(
            cache.schedule_for(epoch)->0,
            leader,
            from,
            es.slots_in(epoch),
            es.first_slot_in(epoch),
        );
        lemma_upcoming_is_confirmed(cache, leader, epoch + 1, 0);
        crate::epoch_schedule::law_epochs_are_adjacent(es, epoch);
        if epoch < cache.max_epoch {
            crate::epoch_schedule::law_starts_ascend(es, epoch + 1, cache.max_epoch as int);
            crate::epoch_schedule::law_epochs_are_adjacent(es, cache.max_epoch as int);
        }
        assert forall|i: int| 0 <= i < (here + next).len() implies #[trigger] (here + next)[i]
            < u64::MAX by {
            if i < here.len() {
                assert((here + next)[i] == here[i]);
            } else {
                assert((here + next)[i] == next[i - here.len()]);
            }
        }
    }
}

/// A search can be answered where the schedules are as long as their epochs, these are no longer
/// than half of what a machine integer counts, and the confirmed epochs end within the slots.
pub proof fn law_searches_can_be_answered(cache: CacheView, leader: Pubkey, slot: int)
    requires
        cache.epoch_schedule.regular(),
        0 <= slot < u64::MAX,
        cache.full(cache.epoch_schedule.epoch_of(slot + 1), cache.max_epoch as int),
        forall|epoch: int|
            0 <= epoch <= cache.max_epoch ==> #[trigger] cache.epoch_schedule.slots_in(epoch)
                <= usize::MAX / 2,
        cache.epoch_schedule.start_of(cache.max_epoch + 1) <= u64::MAX,
    ensures
        cache.can_search(leader, slot),
        cache.next_led(leader, slot, 0) matches Some((first, _)) ==> first < u64::MAX,
{
    let es = cache.epoch_schedule;
    let epoch = es.epoch_of(slot + 1);
    crate::epoch_schedule::law_every_slot_has_a_position(es, slot + 1);
    lemma_upcoming_is_confirmed(cache, leader, epoch, es.index_of(slot + 1));
}

/// Starting anywhere between a slot and the run that a search after it finds leads to the same
/// run.
pub proof fn law_search_can_start_anywhere_before_the_run(
    cache: CacheView,
    leader: Pubkey,
    slot: int,
    later: int,
    range: int,
)
    requires
        cache.epoch_schedule.regular(),
        0 <= slot <= later,
        0 <= range <= u64::MAX,
        cache.search_fits(cache.epoch_schedule.epoch_of(slot + 1)),
        cache.next_led(leader, slot, range) matches Some((first, _)) && later < first < u64::MAX,
    ensures
        cache.next_led(leader, later, range) == cache.next_led(leader, slot, range),
        cache.search_fits(cache.epoch_schedule.epoch_of(later + 1)),
{
    let es = cache.epoch_schedule;
    let (first, last) = cache.next_led(leader, slot, range)->0;
    let epoch = es.epoch_of(slot + 1);
    let nearer = es.epoch_of(later + 1);
    law_search_finds_the_next_run(cache, leader, slot, range);
    crate::epoch_schedule::law_epochs_ascend_with_slots(es, slot + 1, later + 1);
    crate::epoch_schedule::law_epochs_ascend_with_slots(es, later + 1, first);
    crate::epoch_schedule::law_every_slot_has_a_position(es, slot + 1);
    crate::epoch_schedule::law_every_slot_has_a_position(es, later + 1);
    let slots = cache.upcoming(leader, epoch, es.index_of(slot + 1));
    lemma_upcoming(cache, leader, epoch, es.index_of(slot + 1));
    assert(slots[0] == first);
    assert(cache.searched(epoch, first));
    assert(cache.searched(nearer, first));
    assert forall|e: int|
        nearer <= e <= cache.max_epoch && #[trigger] cache.reaches(
            nearer,
            e,
        ) implies cache.fits(e) by {
        assert forall|k: int| epoch <= k <= e implies (#[trigger] cache.schedule_for(k)) is Some by {
            if k < nearer {
                assert(cache.reaches(epoch, es.epoch_of(first)));
            }
        }
        assert(cache.reaches(epoch, e));
    }
    let near = cache.upcoming(leader, nearer, es.index_of(later + 1));
    lemma_upcoming(cache, leader, nearer, es.index_of(later + 1));
    assert(cache.leads_slot(leader, first));
    let k = choose|k: int| 0 <= k < near.len() && near[k] == first;
    assert(k == 0 || near[0] < near[k]);
    let found = cache.next_led(leader, later, range);
    assert(found is Some);
    law_search_finds_the_next_run(cache, leader, later, range);
    let (near_first, near_last) = found->0;
    assert(near_first == first);
    if near_last < last {
        assert(cache.leads_slot(leader, near_last + 1));
        crate::epoch_schedule::law_epochs_ascend_with_slots(es, near_last + 1, last);
    }
    if last < near_last {
        assert(cache.leads_slot(leader, last + 1));
        crate::epoch_schedule::law_epochs_ascend_with_slots(es, last + 1, near_last);
    }
}

proof fn lemma_larger_limit_ends_no_earlier(slots: Seq<int>, smaller: int, larger: int, n: int)
    requires
        smaller <= larger,
        n <= slots.len(),
    ensures
        CacheView::run_length(slots, smaller, n) <= CacheView::run_length(slots, larger, n),
        n <= CacheView::run_length(slots, larger, n),
    decreases slots.len() - n,
{
    if n < slots.len() {
        lemma_larger_limit_ends_no_earlier(slots, smaller, larger, n + 1);
    }
}

/// The range plays no part in where a run starts, and a larger range ends no run earlier.
pub proof fn law_larger_range_ends_no_earlier(
    cache: CacheView,
    leader: Pubkey,
    slot: int,
    smaller: int,
    larger: int,
)
    requires
        smaller <= larger,
    ensures
        match (cache.next_led(leader, slot, smaller), cache.next_led(leader, slot, larger)) {
            (Some((first, last)), Some((same, later))) => first == same && last <= later,
            (None, None) => true,
            _ => false,
        },
{
    let epoch = cache.epoch_schedule.epoch_of(slot + 1);
    let slots = cache.upcoming(leader, epoch, cache.epoch_schedule.index_of(slot + 1));
    if slots.len() > 0 {
        lemma_larger_limit_ends_no_earlier(
            slots,
            EpochSchedule::capped(slots[0] + smaller),
            EpochSchedule::capped(slots[0] + larger),
            1,
        );
    }
}

proof fn lemma_order_plays_no_part(
    cache: CacheView,
    other: CacheView,
    leader: Pubkey,
    epoch: int,
    from: int,
)
    requires
        other == (CacheView { order: other.order, ..cache }),
    ensures
        other.upcoming(leader, epoch, from) == cache.upcoming(leader, epoch, from),
    decreases cache.max_epoch - epoch + 1,
{
    assert(other.schedule_for(epoch) == cache.schedule_for(epoch));
    if epoch <= cache.max_epoch {
        lemma_order_plays_no_part(cache, other, leader, epoch + 1, 0);
    }
}

/// Searching again finds the same: what a search looks up changes no result.
pub proof fn law_repeated_search_finds_the_same(
    cache: CacheView,
    searched_slot: int,
    leader: Pubkey,
    slot: int,
    range: int,
)
    requires
        cache.well_formed(),
    ensures
        cache.after_search(searched_slot).next_led(leader, slot, range) == cache.next_led(
            leader,
            slot,
            range,
        ),
        cache.after_search(searched_slot).can_search(leader, slot) == cache.can_search(
            leader,
            slot,
        ),
{
    let started = cache.epoch_schedule.epoch_of(searched_slot + 1);
    lemma_used_through(cache, started, cache.reach(started));
    let after = cache.after_search(searched_slot);
    let epoch = cache.epoch_schedule.epoch_of(slot + 1);
    lemma_order_plays_no_part(
        cache,
        after,
        leader,
        epoch,
        cache.epoch_schedule.index_of(slot + 1),
    );
    assert forall|e: int| #[trigger] after.schedule_for(e) == cache.schedule_for(e) by {}
    assert forall|e: int| #[trigger] after.reaches(epoch, e) == cache.reaches(epoch, e) by {
        if after.reaches(epoch, e) {
            assert forall|k: int| epoch <= k <= e implies (#[trigger] cache.schedule_for(
                k,
            )) is Some by {
                assert(after.schedule_for(k) is Some);
            }
        }
    }
    assert forall|e: int| #[trigger] after.fits(e) == cache.fits(e) by {}
    if cache.search_fits(epoch) {
        assert(after.search_fits(epoch));
    }
    if after.search_fits(epoch) {
        assert forall|e: int|
            epoch <= e <= cache.max_epoch && #[trigger] cache.reaches(
                epoch,
                e,
            ) implies cache.fits(e) by {
            assert(after.reaches(epoch, e));
            assert(after.fits(e));
        }
    }
}

/// A place in the schedules: an epoch, and an index in it.
pub type Place = (int, int);

/// Whether one place comes before another.
pub open spec fn comes_before(one: Place, other: Place) -> bool {
    one.0 < other.0 || (one.0 == other.0 && one.1 < other.1)
}

impl CacheView {
    /// The slot at a place.
    pub open spec fn slot_at(self, place: Place) -> int {
        self.epoch_schedule.first_slot_in(place.0) + place.1
    }

    /// Whether `place`, from `start` on, is one that `leader` leads: it lies in a confirmed epoch,
    /// within that epoch's slots, and there is a schedule for each epoch from `start` to there.
    pub open spec fn leads_place(self, leader: Pubkey, start: Place, place: Place) -> bool {
        &&& start.0 <= place.0 <= self.max_epoch
        &&& place.0 == start.0 ==> start.1 <= place.1
        &&& 0 <= place.1 < self.epoch_schedule.slots_in(place.0)
        &&& forall|e: int| start.0 <= e <= place.0 ==> (#[trigger] self.schedule_for(e)) is Some
        &&& crate::leader_schedule::leads(self.schedule_for(place.0)->0, leader, place.1)
    }

    /// Whether `place` is the first one from `start` on that `leader` leads.
    pub open spec fn leads_first(self, leader: Pubkey, start: Place, place: Place) -> bool {
        &&& self.leads_place(leader, start, place)
        &&& forall|other: Place| #[trigger]
            self.leads_place(leader, start, other) ==> !comes_before(other, place)
    }

    /// Whether `place` is the next one behind `previous` that `leader` leads.
    pub open spec fn leads_next(
        self,
        leader: Pubkey,
        start: Place,
        previous: Place,
        place: Place,
    ) -> bool {
        &&& self.leads_place(leader, start, place)
        &&& comes_before(previous, place)
        &&& forall|other: Place| #[trigger]
            self.leads_place(leader, start, other) ==> !(comes_before(previous, other)
                && comes_before(other, place))
    }

    /// Whether `run` is a series of places that `leader` leads, each the next one behind the one
    /// before it, the first one the first of all, whose slots follow one another, less than `range`
    /// slots behind the first one and below the largest `u64`, the first slot excepted, and which
    /// ends because that does not hold of the place behind it.
    pub open spec fn is_run(self, leader: Pubkey, start: Place, range: int, run: Seq<Place>) -> bool {
        &&& run.len() > 0
        &&& self.leads_first(leader, start, run[0])
        &&& forall|k: int|
            0 < k < run.len() ==> {
                &&& self.leads_next(leader, start, run[k - 1], #[trigger] run[k])
                &&& self.slot_at(run[k]) == self.slot_at(run[0]) + k
                &&& k < range
                &&& self.slot_at(run[k]) < u64::MAX
            }
        &&& forall|place: Place| #[trigger]
            self.leads_next(leader, start, run[run.len() - 1], place) ==> self.slot_at(place)
                != self.slot_at(run[0]) + run.len() || run.len() >= range || self.slot_at(place)
                >= u64::MAX
    }
}

/// The places of the slots that a search comes to: they are led, in order, and all there are.
proof fn lemma_places(cache: CacheView, leader: Pubkey, epoch: int, from: int) -> (places: Seq<
    Place,
>)
    requires
        0 <= from,
    ensures
        places.len() == cache.upcoming(leader, epoch, from).len(),
        forall|k: int|
            0 <= k < places.len() ==> {
                &&& cache.leads_place(leader, (epoch, from), #[trigger] places[k])
                &&& cache.upcoming(leader, epoch, from)[k] == cache.slot_at(places[k])
            },
        forall|k: int, l: int|
            0 <= k < l < places.len() ==> comes_before(#[trigger] places[k], #[trigger] places[l]),
        forall|place: Place| #[trigger]
            cache.leads_place(leader, (epoch, from), place) ==> places.contains(place),
    decreases cache.max_epoch - epoch + 1,
{
    if epoch <= cache.max_epoch && cache.schedule_for(epoch) is Some {
        let es = cache.epoch_schedule;
        let schedule = cache.schedule_for(epoch)->0;
        let base = es.first_slot_in(epoch);
        let here = CacheView::led_slots(schedule, leader, from, es.slots_in(epoch), base);
        let slots = cache.upcoming(leader, epoch, from);
        lemma_led_slots(schedule, leader, from, es.slots_in(epoch), base);
        let front = here.map_values(|slot: int| (epoch, slot - base));
        let back = lemma_places(cache, leader, epoch + 1, 0);
        let places = front + back;
        assert(slots == here + cache.upcoming(leader, epoch + 1, 0));
        assert forall|k: int| 0 <= k < places.len() implies {
            &&& cache.leads_place(leader, (epoch, from), #[trigger] places[k])
            &&& slots[k] == cache.slot_at(places[k])
        } by {
            if k < front.len() {
                assert(places[k] == (epoch, here[k] - base));
            } else {
                let place = back[k - front.len()];
                assert(places[k] == place);
                assert(cache.leads_place(leader, (epoch + 1, 0), place));
                assert forall|e: int| epoch <= e <= place.0 implies (#[trigger] cache.schedule_for(
                    e,
                )) is Some by {}
            }
        }
        assert forall|k: int, l: int| 0 <= k < l < places.len() implies comes_before(
            #[trigger] places[k],
            #[trigger] places[l],
        ) by {
            if l < front.len() {
                assert(here[k] < here[l]);
            } else if k < front.len() {
                assert(cache.leads_place(leader, (epoch + 1, 0), back[l - front.len()]));
            } else {
                assert(comes_before(back[k - front.len()], back[l - front.len()]));
            }
        }
        assert forall|place: Place| #[trigger]
            cache.leads_place(leader, (epoch, from), place) implies places.contains(place) by {
            if place.0 == epoch {
                assert(here.contains(base + place.1));
                let k = choose|k: int| 0 <= k < here.len() && here[k] == base + place.1;
                assert(places[k] == place);
            } else {
                assert(cache.leads_place(leader, (epoch + 1, 0), place));
                let k = choose|k: int| 0 <= k < back.len() && back[k] == place;
                assert(places[front.len() + k] == place);
            }
        }
        places
    } else {
        assert forall|place: Place| !#[trigger] cache.leads_place(leader, (epoch, from), place) by {
            if cache.leads_place(leader, (epoch, from), place) {
                assert(cache.schedule_for(epoch) is Some);
            }
        }
        Seq::empty()
    }
}

/// Whatever the epochs look like, a search gives the slot at the first place behind `slot` that
/// the leader leads, and the slot at the last place of the run that starts there; it gives nothing
/// exactly where there is no such place.
pub proof fn law_search_by_place(cache: CacheView, leader: Pubkey, slot: int, range: int)
    requires
        0 <= slot,
    ensures
        ({
            let start = (
                cache.epoch_schedule.epoch_of(slot + 1),
                cache.epoch_schedule.index_of(slot + 1),
            );
            match cache.next_led(leader, slot, range) {
                Some((first, last)) => exists|run: Seq<Place>| #[trigger]
                    cache.is_run(leader, start, range, run) && first == cache.slot_at(run[0])
                        && last == first + run.len() - 1,
                None => forall|place: Place| !#[trigger] cache.leads_place(leader, start, place),
            }
        }),
{
    let epoch = cache.epoch_schedule.epoch_of(slot + 1);
    let from = cache.epoch_schedule.index_of(slot + 1);
    let start = (epoch, from);
    crate::epoch_schedule::lemma_position_is_not_negative(cache.epoch_schedule, slot + 1);
    let slots = cache.upcoming(leader, epoch, from);
    let places = lemma_places(cache, leader, epoch, from);
    if slots.len() > 0 && epoch <= cache.max_epoch {
        let limit = EpochSchedule::capped(slots[0] + range);
        lemma_run(slots, limit, 1);
        let length = CacheView::run_length(slots, limit, 1);
        let run = places.take(length);
        assert forall|other: Place| #[trigger]
            cache.leads_place(leader, start, other) implies !comes_before(other, run[0]) by {
            let k = choose|k: int| 0 <= k < places.len() && places[k] == other;
            assert(k == 0 || comes_before(places[0], places[k]));
        }
        assert forall|k: int| 0 < k < run.len() implies {
            &&& cache.leads_next(leader, start, run[k - 1], #[trigger] run[k])
            &&& cache.slot_at(run[k]) == cache.slot_at(run[0]) + k
            &&& k < range
            &&& cache.slot_at(run[k]) < u64::MAX
        } by {
            assert(run[k] == places[k] && run[k - 1] == places[k - 1] && run[0] == places[0]);
            assert(comes_before(places[k - 1], places[k]));
            assert(slots[k] == slots[0] + k);
            lemma_neighbours(cache, leader, start, places, k);
        }
        assert forall|place: Place| #[trigger]
            cache.leads_next(leader, start, run[run.len() - 1], place) implies cache.slot_at(place)
            != cache.slot_at(run[0]) + run.len() || run.len() >= range || cache.slot_at(place)
            >= u64::MAX by {
            assert(run[run.len() - 1] == places[length - 1]);
            let k = choose|k: int| 0 <= k < places.len() && places[k] == place;
            if k < length - 1 {
                assert(comes_before(places[k], places[length - 1]));
            }
            if k > length {
                assert(comes_before(places[length - 1], places[length]));
                assert(comes_before(places[length], places[k]));
                assert(cache.leads_place(leader, start, places[length]));
            }
            assert(k == length);
        }
        assert(cache.is_run(leader, start, range, run));
    } else {
        assert forall|place: Place| !#[trigger] cache.leads_place(leader, start, place) by {
            if cache.leads_place(leader, start, place) {
                assert(places.contains(place));
            }
        }
    }
}

proof fn lemma_neighbours(
    cache: CacheView,
    leader: Pubkey,
    start: Place,
    places: Seq<Place>,
    k: int,
)
    requires
        0 < k < places.len(),
        forall|i: int, j: int|
            0 <= i < j < places.len() ==> comes_before(#[trigger] places[i], #[trigger] places[j]),
        forall|place: Place| #[trigger]
            cache.leads_place(leader, start, place) ==> places.contains(place),
        cache.leads_place(leader, start, places[k]),
    ensures
        cache.leads_next(leader, start, places[k - 1], places[k]),
{
    assert(comes_before(places[k - 1], places[k]));
    assert forall|other: Place| #[trigger]
        cache.leads_place(leader, start, other) implies !(comes_before(places[k - 1], other)
        && comes_before(other, places[k])) by {
        let i = choose|i: int| 0 <= i < places.len() && places[i] == other;
        if i < k - 1 {
            assert(comes_before(places[i], places[k - 1]));
        }
        if i > k {
            assert(comes_before(places[k], places[i]));
        }
    }
}

/// A search can be answered exactly where there is a next slot and it has a position, the epochs
/// that the search comes to and twice their schedules are counted in machine integers, and the
/// first led slot is a machine integer; how long the run is and what lies behind it plays no part.
pub proof fn law_when_a_search_can_be_answered(cache: CacheView, leader: Pubkey, slot: int)
    requires
        0 <= slot,
    ensures
        ({
            let start = (
                cache.epoch_schedule.epoch_of(slot + 1),
                cache.epoch_schedule.index_of(slot + 1),
            );
            cache.can_search(leader, slot) <==> {
                &&& slot < u64::MAX
                &&& slot + 1 >= cache.epoch_schedule.first_normal_slot || slot + 34
                    <= 0x8000_0000_0000_0000
                &&& forall|e: int|
                    start.0 <= e <= cache.max_epoch && #[trigger] cache.reaches(start.0, e) ==> {
                        &&& cache.epoch_schedule.slots_in(e) <= usize::MAX
                        &&& crate::leader_schedule::schedule_slots(
                            cache.schedule_for(e)->0,
                        ).len() <= usize::MAX / 2
                    }
                &&& forall|place: Place| #[trigger]
                    cache.leads_first(leader, start, place) ==> cache.slot_at(place) <= u64::MAX
            }
        }),
{
    let epoch = cache.epoch_schedule.epoch_of(slot + 1);
    let from = cache.epoch_schedule.index_of(slot + 1);
    let start = (epoch, from);
    crate::epoch_schedule::lemma_position_is_not_negative(cache.epoch_schedule, slot + 1);
    let slots = cache.upcoming(leader, epoch, from);
    let places = lemma_places(cache, leader, epoch, from);
    assert forall|e: int| start.0 <= e && #[trigger] cache.reaches(start.0, e) implies (
    cache.schedule_for(e)) is Some by {}
    assert forall|place: Place| #[trigger] cache.leads_first(leader, start, place) implies places.len()
        > 0 && place == places[0] by {
        let k = choose|k: int| 0 <= k < places.len() && places[k] == place;
        if k > 0 {
            assert(comes_before(places[0], places[k]));
            assert(cache.leads_place(leader, start, places[0]));
        }
    }
    if places.len() > 0 {
        assert forall|other: Place| #[trigger]
            cache.leads_place(leader, start, other) implies !comes_before(other, places[0]) by {
            let k = choose|k: int| 0 <= k < places.len() && places[k] == other;
            assert(k == 0 || comes_before(places[0], places[k]));
        }
        assert(cache.leads_first(leader, start, places[0]));
        assert(slots[0] == cache.slot_at(places[0]));
    }
    let sizes = forall|e: int|
        start.0 <= e <= cache.max_epoch && #[trigger] cache.reaches(start.0, e) ==> {
            &&& cache.epoch_schedule.slots_in(e) <= usize::MAX
            &&& crate::leader_schedule::schedule_slots(cache.schedule_for(e)->0).len()
                <= usize::MAX / 2
        };
    assert(cache.search_fits(epoch) == sizes) by {
        if cache.search_fits(epoch) {
            assert forall|e: int|
                start.0 <= e <= cache.max_epoch && #[trigger] cache.reaches(start.0, e) implies {
                &&& cache.epoch_schedule.slots_in(e) <= usize::MAX
                &&& crate::leader_schedule::schedule_slots(cache.schedule_for(e)->0).len()
                    <= usize::MAX / 2
            } by {
                assert(cache.fits(e));
            }
        }
        if sizes {
            assert forall|e: int|
                epoch <= e <= cache.max_epoch && #[trigger] cache.reaches(
                    epoch,
                    e,
                ) implies cache.fits(e) by {}
        }
    }
}

/// A search looks up every epoch from the next slot's on that is confirmed and has a schedule, up
/// to the first one that is not or has none: these are the most recently used from then on, in
/// ascending order, and the others keep their order. Under a fixed schedule nothing changes.
pub proof fn law_search_uses_the_epochs_it_comes_to(cache: CacheView, slot: int)
    requires
        cache.well_formed(),
        0 <= slot,
    ensures
        ({
            let from = cache.epoch_schedule.epoch_of(slot + 1);
            let to = cache.reach(from);
            let after = cache.after_search(slot);
            &&& from <= to
            &&& forall|e: int| from <= e < to ==> e <= cache.max_epoch && (
            #[trigger] cache.schedule_for(e)) is Some
            &&& to > cache.max_epoch || cache.schedule_for(to) is None
            &&& cache.fixed_schedule is Some ==> after == cache
            &&& cache.fixed_schedule is None ==> after == (CacheView {
                order: cache.order.filter(|e: Epoch| !(from <= e < to)) + Seq::new(
                    (to - from) as nat,
                    |i: int| (from + i) as Epoch,
                ),
                ..cache
            })
        }),
{
    let from = cache.epoch_schedule.epoch_of(slot + 1);
    let to = cache.reach(from);
    crate::epoch_schedule::lemma_position_is_not_negative(cache.epoch_schedule, slot + 1);
    lemma_reach(cache, from);
    lemma_used_through(cache, from, to);
    if cache.fixed_schedule is None {
        assert forall|e: int| from <= e < to implies cache.schedules.contains_key(
            #[trigger] (e as Epoch),
        ) by {
            assert(cache.schedule_for(e) is Some);
        }
        if from < to {
            assert(cache.schedule_for(to - 1) is Some);
        }
        crate::lookup_laws::law_lookups_move_the_epochs_behind_the_others(cache, from, to);
    }
}

proof fn lemma_reach(cache: CacheView, from: int)
    ensures
        from <= cache.reach(from),
        forall|e: int|
            from <= e < cache.reach(from) ==> e <= cache.max_epoch && (
            #[trigger] cache.schedule_for(e)) is Some,
        cache.reach(from) > cache.max_epoch || cache.schedule_for(cache.reach(from)) is None,
    decreases cache.max_epoch - from + 1,
{
    if from <= cache.max_epoch && cache.schedule_for(from) is Some {
        lemma_reach(cache, from + 1);
    }
}

} // verus!
