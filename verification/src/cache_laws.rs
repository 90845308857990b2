//! What holds of a cache of leader schedules across calls.

use crate::leader_schedule_cache::{lemma_used, lemma_used_through, CacheView};
use solana_clock::{Epoch, Slot};
use solana_leader_schedule::LeaderSchedule;
use std::sync::Arc;
use vstd::prelude::*;

verus! {

/// Warming a new epoch leaves the cache well-formed and within its capacity.
pub proof fn law_warming_keeps_the_cache_in_order(
    cache: CacheView,
    epoch: Epoch,
    schedule: Arc<LeaderSchedule>,
)
    requires
        cache.well_formed(),
    ensures
        cache.warmed(epoch, schedule).well_formed(),
        !cache.schedules.contains_key(epoch) || cache.order.len() <= cache.max_schedules
            ==> cache.warmed(epoch, schedule).schedules.dom().len() <= cache.max_schedules,
{
    let after = cache.warmed(epoch, schedule);
    cache.order.unique_seq_to_set();
    if !cache.schedules.contains_key(epoch) {
        let pushed = cache.order.push(epoch);
        let dropped: int = if pushed.len() > cache.max_schedules {
            pushed.len() - cache.max_schedules
        } else {
            0
        };
        assert(after.order =~= pushed.skip(dropped));
        assert(!cache.order.contains(epoch)) by {
            assert(cache.order.to_set().contains(epoch) == cache.order.contains(epoch));
        }
        assert(pushed.no_duplicates());
        assert(after.order.no_duplicates());
        assert forall|e: Epoch| after.order.to_set().contains(e) implies after.schedules.dom().contains(
            e,
        ) by {
            let i = choose|i: int| 0 <= i < after.order.len() && after.order[i] == e;
            assert(pushed[i + dropped] == e);
            if e != epoch {
                assert(cache.order[i + dropped] == e);
                assert(cache.order.to_set().contains(e));
            }
        }
        assert(after.order.to_set() =~= after.schedules.dom());
        after.order.unique_seq_to_set();
    }
}

/// A read gives back what was warmed: once a new epoch is warmed, its schedule answers for it,
/// unless the cache holds nothing at all or a fixed schedule answers.
pub proof fn law_read_gives_back_what_was_warmed(
    cache: CacheView,
    epoch: Epoch,
    schedule: Arc<LeaderSchedule>,
)
    requires
        cache.well_formed(),
        !cache.schedules.contains_key(epoch),
        cache.max_schedules > 0,
    ensures
        cache.warmed(epoch, schedule).schedules.contains_key(epoch),
        cache.fixed_schedule is None ==> cache.warmed(epoch, schedule).schedule_for(epoch as int)
            == Some(*schedule),
{
    let after = cache.warmed(epoch, schedule);
    assert(after.order.last() == epoch);
    assert(after.order.to_set().contains(epoch));
}

/// Warming leaves every other epoch's schedule as it was, or drops it.
pub proof fn law_warming_changes_no_other_schedule(
    cache: CacheView,
    epoch: Epoch,
    schedule: Arc<LeaderSchedule>,
    other: Epoch,
)
    requires
        other != epoch,
        cache.warmed(epoch, schedule).schedules.contains_key(other),
    ensures
        cache.schedules.contains_key(other),
        cache.warmed(epoch, schedule).schedules[other] == cache.schedules[other],
{
}

/// The first schedule offered for an epoch stays: offering another one changes nothing.
pub proof fn law_first_schedule_stays(
    cache: CacheView,
    epoch: Epoch,
    first: Arc<LeaderSchedule>,
    second: Arc<LeaderSchedule>,
)
    requires
        cache.well_formed(),
        cache.max_schedules > 0,
    ensures
        cache.warmed(epoch, first).warmed(epoch, second) == cache.warmed(epoch, first),
{
    if !cache.schedules.contains_key(epoch) {
        law_read_gives_back_what_was_warmed(cache, epoch, first);
    }
}

/// A full cache makes room for a new epoch by dropping the least recently used one, and no other.
pub proof fn law_least_recently_used_epoch_leaves_first(
    cache: CacheView,
    epoch: Epoch,
    schedule: Arc<LeaderSchedule>,
)
    requires
        cache.well_formed(),
        !cache.schedules.contains_key(epoch),
        cache.order.len() == cache.max_schedules,
        cache.max_schedules > 0,
    ensures
        cache.warmed(epoch, schedule).order == cache.order.skip(1).push(epoch),
        cache.warmed(epoch, schedule).schedules.dom() == cache.schedules.dom().remove(
            cache.order[0],
        ).insert(epoch),
{
    let after = cache.warmed(epoch, schedule);
    law_warming_keeps_the_cache_in_order(cache, epoch, schedule);
    assert(after.order =~= cache.order.skip(1).push(epoch));
    assert forall|e: Epoch| after.order.contains(e) == (e == epoch || (cache.order.contains(e) && e
        != cache.order[0])) by {
        assert(after.order.last() == epoch);
        if cache.order.contains(e) && e != cache.order[0] {
            let i = choose|i: int| 0 <= i < cache.order.len() && cache.order[i] == e;
            assert(after.order[i - 1] == e);
        }
        if after.order.contains(e) && e != epoch {
            let i = choose|i: int| 0 <= i < after.order.len() && after.order[i] == e;
            assert(cache.order[i + 1] == e);
        }
    }
    assert(cache.order.contains(cache.order[0]));
    assert forall|e: Epoch| cache.order.contains(e) == cache.schedules.dom().contains(e) by {
        assert(cache.order.to_set().contains(e) == cache.order.contains(e));
    }
    assert forall|e: Epoch| after.order.contains(e) == after.schedules.dom().contains(e) by {
        assert(after.order.to_set().contains(e) == after.order.contains(e));
    }
    assert(!cache.order.contains(epoch));
    assert(after.schedules.dom() =~= cache.schedules.dom().remove(cache.order[0]).insert(epoch));
}

/// Looking up a cached epoch saves it: a full cache then makes room for a new epoch by dropping
/// the least recently used one of the others.
pub proof fn law_looked_up_epoch_stays(
    cache: CacheView,
    looked_up: Epoch,
    epoch: Epoch,
    schedule: Arc<LeaderSchedule>,
)
    requires
        cache.well_formed(),
        cache.fixed_schedule is None,
        cache.schedules.contains_key(looked_up),
        !cache.schedules.contains_key(epoch),
        cache.order.len() == cache.max_schedules,
        cache.max_schedules > 1,
    ensures
        cache.used(looked_up).warmed(epoch, schedule).schedules.contains_key(looked_up),
        cache.used(looked_up).warmed(epoch, schedule).schedules.contains_key(epoch),
        !cache.used(looked_up).warmed(epoch, schedule).schedules.contains_key(
            cache.order[if cache.order[0] == looked_up {
                1
            } else {
                0
            }],
        ),
{
    let used = cache.used(looked_up);
    lemma_used(cache, looked_up);
    assert(cache.order.to_set().contains(looked_up));
    let at = cache.order.index_of(looked_up);
    assert(0 <= at < cache.order.len() && cache.order[at] == looked_up);
    assert(used.order[used.order.len() - 1] == looked_up);
    law_least_recently_used_epoch_leaves_first(used, epoch, schedule);
    assert(used.order[0] != looked_up);
}

/// What befalls a cache.
pub enum CacheEvent {
    /// The schedule of an epoch is looked up.
    LookedUp(Epoch),
    /// A schedule is offered for an epoch.
    Warmed(Epoch, Arc<LeaderSchedule>),
    /// A slot is rooted.
    Rooted(Slot),
}

impl CacheView {
    /// The cache after one event.
    pub open spec fn after(self, event: CacheEvent) -> CacheView {
        match event {
            CacheEvent::LookedUp(epoch) => self.used(epoch),
            CacheEvent::Warmed(epoch, schedule) => self.warmed(epoch, schedule),
            CacheEvent::Rooted(slot) => self.rooted(slot),
        }
    }

    /// The cache after several events, one after the other.
    pub open spec fn after_all(self, events: Seq<CacheEvent>) -> CacheView
        decreases events.len(),
    {
        if events.len() == 0 {
            self
        } else {
            self.after_all(events.drop_last()).after(events.last())
        }
    }

    /// Whether an event uses `epoch`: the epoch is found in the cache, or newly put there.
    pub open spec fn uses(self, event: CacheEvent, epoch: Epoch) -> bool {
        match event {
            CacheEvent::LookedUp(looked_up) => looked_up == epoch && self.fixed_schedule is None
                && self.schedules.contains_key(epoch),
            CacheEvent::Warmed(warmed, _) => warmed == epoch && !self.schedules.contains_key(epoch),
            CacheEvent::Rooted(_) => false,
        }
    }

    /// Which of the events was the last to use `epoch`; `-1` where none did.
    pub open spec fn last_use(self, events: Seq<CacheEvent>, epoch: Epoch) -> int
        decreases events.len(),
    {
        if events.len() == 0 {
            -1
        } else if self.after_all(events.drop_last()).uses(events.last(), epoch) {
            events.len() - 1
        } else {
            self.last_use(events.drop_last(), epoch)
        }
    }

    /// Whether the order is by last use, among epochs that were used.
    pub open spec fn ordered_by_last_use(self, events: Seq<CacheEvent>) -> bool {
        let order = self.after_all(events).order;
        &&& forall|i: int|
            0 <= i < order.len() ==> 0 <= self.last_use(events, #[trigger] order[i]) < events.len()
        &&& forall|i: int, j: int|
            0 <= i < j < order.len() ==> self.last_use(events, #[trigger] order[i])
                < self.last_use(events, #[trigger] order[j])
    }

    /// Whether each epoch that was used and left had to make room for epochs that were all used
    /// later.
    pub open spec fn retains_last_used(self, events: Seq<CacheEvent>) -> bool {
        let after = self.after_all(events);
        forall|epoch: Epoch|
            #![trigger self.last_use(events, epoch)]
            self.last_use(events, epoch) >= 0 && !after.schedules.contains_key(epoch) ==> {
                &&& after.order.len() == after.max_schedules
                &&& forall|i: int|
                    0 <= i < after.order.len() ==> self.last_use(events, epoch) < self.last_use(
                        events,
                        #[trigger] after.order[i],
                    )
            }
    }
}

/// The cache is an LRU cache: whatever was looked up, warmed and rooted since it was empty, it
/// lists its epochs by last use and holds the ones that were used last, as many as its capacity
/// allows.
pub proof fn law_most_recently_used_epochs_are_retained(cache: CacheView, events: Seq<CacheEvent>)
    requires
        cache.well_formed(),
        cache.order.len() == 0,
    ensures
        cache.after_all(events).well_formed(),
        cache.after_all(events).max_schedules == cache.max_schedules,
        cache.after_all(events).order.len() <= cache.max_schedules,
        cache.ordered_by_last_use(events),
        cache.retains_last_used(events),
    decreases events.len(),
{
    if events.len() > 0 {
        let fewer = events.drop_last();
        law_most_recently_used_epochs_are_retained(cache, fewer);
        let before = cache.after_all(fewer);
        match events.last() {
            CacheEvent::LookedUp(epoch) => {
                lemma_used(before, epoch);
                if before.uses(events.last(), epoch) {
                    lemma_use_keeps_the_order(cache, events, epoch);
                } else {
                    lemma_unused_keeps_the_order(cache, events);
                }
            },
            CacheEvent::Warmed(epoch, schedule) => {
                law_warming_keeps_the_cache_in_order(before, epoch, schedule);
                if before.uses(events.last(), epoch) {
                    lemma_warming_keeps_the_order(cache, events, epoch, schedule);
                } else {
                    lemma_unused_keeps_the_order(cache, events);
                }
            },
            CacheEvent::Rooted(slot) => {
                law_rooting_keeps_the_schedules(before, slot, 0);
                lemma_unused_keeps_the_order(cache, events);
            },
        }
    }
}

proof fn lemma_use_keeps_the_order(cache: CacheView, events: Seq<CacheEvent>, epoch: Epoch)
    requires
        events.len() > 0,
        events.last() == CacheEvent::LookedUp(epoch),
        cache.after_all(events.drop_last()).uses(events.last(), epoch),
        cache.after_all(events.drop_last()).well_formed(),
        cache.ordered_by_last_use(events.drop_last()),
        cache.retains_last_used(events.drop_last()),
    ensures
        cache.ordered_by_last_use(events),
        cache.retains_last_used(events),
{
    let fewer = events.drop_last();
    let before = cache.after_all(fewer);
    let after = cache.after_all(events);
    lemma_used(before, epoch);
    assert(before.order.to_set().contains(epoch));
    let at = before.order.index_of(epoch);
    assert(0 <= at < before.order.len() && before.order[at] == epoch);
    let last = after.order.len() - 1;
    assert forall|i: int| 0 <= i < last implies #[trigger] after.order[i] == before.order[if i < at {
        i
    } else {
        i + 1
    }] && after.order[i] != epoch by {}
    assert(after.order[last] == epoch);
    assert forall|e: Epoch| e != epoch implies #[trigger] cache.last_use(events, e)
        == cache.last_use(fewer, e) by {}
    assert(cache.last_use(events, epoch) == events.len() - 1);
}

proof fn lemma_warming_keeps_the_order(
    cache: CacheView,
    events: Seq<CacheEvent>,
    epoch: Epoch,
    schedule: Arc<LeaderSchedule>,
)
    requires
        events.len() > 0,
        events.last() == CacheEvent::Warmed(epoch, schedule),
        cache.after_all(events.drop_last()).uses(events.last(), epoch),
        cache.after_all(events.drop_last()).well_formed(),
        cache.after_all(events.drop_last()).order.len() <= cache.after_all(
            events.drop_last(),
        ).max_schedules,
        cache.ordered_by_last_use(events.drop_last()),
        cache.retains_last_used(events.drop_last()),
    ensures
        cache.ordered_by_last_use(events),
        cache.retains_last_used(events),
{
    let fewer = events.drop_last();
    let before = cache.after_all(fewer);
    let after = cache.after_all(events);
    law_warming_keeps_the_cache_in_order(before, epoch, schedule);
    let pushed = before.order.push(epoch);
    let dropped = pushed.len() - after.order.len();
    assert(!before.order.contains(epoch)) by {
        assert(before.order.to_set().contains(epoch) == before.order.contains(epoch));
    }
    assert forall|i: int| 0 <= i < after.order.len() implies #[trigger] after.order[i]
        == pushed[i + dropped] by {}
    assert forall|e: Epoch| e != epoch implies #[trigger] cache.last_use(events, e)
        == cache.last_use(fewer, e) by {}
    assert(cache.last_use(events, epoch) == events.len() - 1);
    assert forall|i: int| 0 <= i < before.order.len() implies #[trigger] before.order[i] != epoch by {}
    assert forall|e: Epoch|
        #![trigger cache.last_use(events, e)]
        cache.last_use(events, e) >= 0 && !after.schedules.contains_key(e) implies {
        &&& after.order.len() == after.max_schedules
        &&& forall|i: int|
            0 <= i < after.order.len() ==> cache.last_use(events, e) < cache.last_use(
                events,
                #[trigger] after.order[i],
            )
    } by {
        if e != epoch && before.schedules.contains_key(e) {
            assert(before.order.to_set().contains(e));
            let k = choose|k: int| 0 <= k < before.order.len() && before.order[k] == e;
            if k >= dropped {
                assert(after.order[k - dropped] == e);
                assert(after.order.to_set().contains(e));
            }
        } else if e == epoch {
            if after.order.len() > 0 {
                assert(after.order[after.order.len() - 1] == epoch);
                assert(after.order.to_set().contains(epoch));
            }
        }
        if e != epoch {
            lemma_last_use_is_an_event(cache, fewer, e);
            assert(cache.last_use(fewer, e) >= 0);
            assert(after.order.len() == after.max_schedules);
            assert forall|i: int| 0 <= i < after.order.len() implies cache.last_use(events, e)
                < cache.last_use(events, #[trigger] after.order[i]) by {
                if i + dropped < before.order.len() {
                    assert(after.order[i] == before.order[i + dropped]);
                    if before.schedules.contains_key(e) {
                        let k = choose|k: int| 0 <= k < before.order.len() && before.order[k] == e;
                        assert(cache.last_use(fewer, before.order[k]) < cache.last_use(
                            fewer,
                            before.order[i + dropped],
                        ));
                    }
                }
            }
        }
    }
}

proof fn lemma_last_use_is_an_event(cache: CacheView, events: Seq<CacheEvent>, epoch: Epoch)
    ensures
        -1 <= cache.last_use(events, epoch) < events.len(),
    decreases events.len(),
{
    if events.len() > 0 {
        lemma_last_use_is_an_event(cache, events.drop_last(), epoch);
    }
}

/// An event that uses nothing keeps what holds of the last uses.
proof fn lemma_unused_keeps_the_order(cache: CacheView, events: Seq<CacheEvent>)
    requires
        events.len() > 0,
        forall|e: Epoch| !cache.after_all(events.drop_last()).uses(events.last(), e),
        cache.after_all(events).order == cache.after_all(events.drop_last()).order,
        cache.after_all(events).schedules == cache.after_all(events.drop_last()).schedules,
        cache.after_all(events).max_schedules == cache.after_all(
            events.drop_last(),
        ).max_schedules,
        cache.ordered_by_last_use(events.drop_last()),
        cache.retains_last_used(events.drop_last()),
    ensures
        cache.ordered_by_last_use(events),
        cache.retains_last_used(events),
{
    let fewer = events.drop_last();
    assert forall|e: Epoch| #[trigger] cache.last_use(events, e) == cache.last_use(fewer, e) by {}
}

/// Looking up epochs changes no answer: the same schedules answer for the same epochs, and the
/// same leaders lead the same slots.
pub proof fn law_use_changes_no_leader(
    cache: CacheView,
    from: int,
    to: int,
    epoch: int,
    slot: int,
)
    requires
        cache.well_formed(),
    ensures
        cache.used_through(from, to).well_formed(),
        cache.used_through(from, to).schedules == cache.schedules,
        cache.used_through(from, to).schedule_for(epoch) == cache.schedule_for(epoch),
        cache.used_through(from, to).leader_of(slot) == cache.leader_of(slot),
        cache.used_through(from, to).can_look_up(slot) == cache.can_look_up(slot),
{
    lemma_used_through(cache, from, to);
}

/// The newest confirmed epoch never falls, and a warmed epoch is confirmed from then on.
pub proof fn law_max_epoch_never_falls(
    cache: CacheView,
    epoch: Epoch,
    schedule: Arc<LeaderSchedule>,
    root_slot: Slot,
)
    ensures
        cache.warmed(epoch, schedule).max_epoch >= cache.max_epoch,
        !cache.schedules.contains_key(epoch) ==> cache.warmed(epoch, schedule).max_epoch >= epoch,
        cache.rooted(root_slot).max_epoch >= cache.max_epoch,
{
}

/// Rooting a slot neither adds a schedule nor drops one, as long as the cache holds no more than
/// it is to hold.
pub proof fn law_rooting_keeps_the_schedules(cache: CacheView, root_slot: Slot, epoch: int)
    requires
        cache.well_formed(),
        cache.order.len() <= cache.max_schedules,
    ensures
        cache.rooted(root_slot).well_formed(),
        cache.rooted(root_slot).schedule_for(epoch) == cache.schedule_for(epoch),
        cache.rooted(root_slot).order == cache.order,
        cache.rooted(root_slot).schedules == cache.schedules,
{
    assert(cache.rooted(root_slot).schedules =~= cache.schedules);
}

/// With regular epochs whose schedule is due one epoch ahead, a root in an epoch confirms the
/// next one and no more.
pub proof fn law_root_confirms_one_epoch_ahead(cache: CacheView, root_slot: Slot)
    requires
        cache.epoch_schedule.regular(),
        cache.epoch_schedule.leader_schedule_slot_offset == cache.epoch_schedule.slots_per_epoch,
        root_slot + cache.epoch_schedule.slots_per_epoch <= u64::MAX,
        cache.epoch_schedule.epoch_of(root_slot as int) < u64::MAX,
    ensures
        cache.epoch_schedule.leader_schedule_epoch_of(root_slot as int)
            == cache.epoch_schedule.epoch_of(root_slot as int) + 1,
{
    let es = cache.epoch_schedule;
    if root_slot >= es.first_normal_slot {
        let placed = root_slot - es.first_normal_slot;
        let length = es.slots_per_epoch as int;
        vstd::arithmetic::div_mod::lemma_div_plus_one(placed, length);
        crate::epoch_schedule::law_every_slot_has_a_position(es, root_slot as int);
        vstd::arithmetic::div_mod::lemma_div_is_ordered_by_denominator(placed, 1, length);
        vstd::arithmetic::div_mod::lemma_div_pos_is_pos(placed, length);
    }
}

/// A fixed schedule answers for every epoch, whatever is cached.
pub proof fn law_fixed_schedule_answers_for_every_epoch(
    cache: CacheView,
    fixed: Arc<LeaderSchedule>,
    epoch: Epoch,
)
    ensures
        (CacheView { fixed_schedule: Some(fixed), ..cache }).schedule_for(epoch as int) == Some(
            *fixed,
        ),
{
}

/// The leader of the slot at `index` of an epoch is the one that the epoch's schedule has at that
/// index, where the schedule is as long as the epoch.
pub proof fn law_leader_is_the_scheduled_one(cache: CacheView, epoch: int, index: int)
    requires
        cache.epoch_schedule.regular(),
        cache.schedule_for(epoch) is Some,
        crate::leader_schedule::schedule_slots(cache.schedule_for(epoch)->0).len()
            == cache.epoch_schedule.slots_in(epoch) <= usize::MAX,
        0 <= index < cache.epoch_schedule.slots_in(epoch),
        cache.epoch_schedule.start_of(epoch) + index <= u64::MAX,
    ensures
        cache.can_look_up(cache.epoch_schedule.start_of(epoch) + index),
        cache.leader_of(cache.epoch_schedule.start_of(epoch) + index) == Some(
            crate::leader_schedule::schedule_slots(cache.schedule_for(epoch)->0)[index],
        ),
{
    crate::epoch_schedule::law_position_of_placed_slot(cache.epoch_schedule, epoch, index);
    let count = crate::leader_schedule::slot_count(cache.schedule_for(epoch)->0);
    vstd::arithmetic::div_mod::lemma_small_mod(index as nat, count as nat);
}

} // verus!
