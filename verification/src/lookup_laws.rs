//! What each step of a cache does to what it holds, and which schedule and leader it answers with.

use crate::epoch_schedule::EpochSchedule;
use crate::leader_schedule_cache::{
    lemma_used, lemma_used_through, CacheView, LeaderScheduleCache,
};
use solana_clock::{Epoch, Slot};
use solana_leader_schedule::LeaderSchedule;
use solana_pubkey::Pubkey;
use solana_vote::vote_account::VoteAccount;
use std::sync::Arc;
use vstd::prelude::*;

verus! {

/// The view of a cache shows its fields.
pub proof fn law_view_shows_the_fields(cache: LeaderScheduleCache)
    ensures
        cache@.schedules == cache.cached_schedules.0@,
        cache@.order == cache.cached_schedules.1@,
        cache@.epoch_schedule == cache.epoch_schedule,
        cache@.max_epoch == cache.max_epoch,
        cache@.max_schedules == cache.max_schedules.0,
        cache.fixed_schedule is None <==> cache@.fixed_schedule is None,
        cache.fixed_schedule matches Some(fixed) ==> cache@.fixed_schedule == Some(
            fixed.leader_schedule,
        ),
{
}

/// A new cache has room for ten schedules and holds none.
pub proof fn law_new_cache_is_empty(epoch_schedule: EpochSchedule, max_epoch: Epoch)
    ensures
        ({
            let cache = CacheView::empty(epoch_schedule, max_epoch);
            &&& cache.schedules == Map::<Epoch, Arc<LeaderSchedule>>::empty()
            &&& cache.order == Seq::<Epoch>::empty()
            &&& cache.epoch_schedule == epoch_schedule
            &&& cache.max_epoch == max_epoch
            &&& cache.max_schedules == 10
            &&& cache.fixed_schedule is None
        }),
{
}

/// A cache is well-formed where its order lists exactly the cached epochs, each once.
pub proof fn law_order_lists_the_cached_epochs(cache: CacheView)
    ensures
        cache.well_formed() <==> {
            &&& forall|i: int, j: int|
                0 <= i < j < cache.order.len() ==> cache.order[i] != cache.order[j]
            &&& forall|epoch: Epoch| #[trigger]
                cache.order.contains(epoch) <==> cache.schedules.contains_key(epoch)
        },
{
    assert forall|epoch: Epoch| #[trigger]
        cache.order.contains(epoch) == cache.order.to_set().contains(epoch) by {}
    if forall|epoch: Epoch| #[trigger]
        cache.order.contains(epoch) <==> cache.schedules.contains_key(epoch) {
        assert(cache.order.to_set() =~= cache.schedules.dom());
    }
    if cache.well_formed() {
        assert forall|epoch: Epoch| #[trigger]
            cache.order.contains(epoch) <==> cache.schedules.contains_key(epoch) by {
            assert(cache.order.to_set().contains(epoch) == cache.schedules.dom().contains(epoch));
        }
    }
}

/// Warming a cached epoch changes nothing.
pub proof fn law_warming_a_cached_epoch_changes_nothing(
    cache: CacheView,
    epoch: Epoch,
    schedule: Arc<LeaderSchedule>,
)
    requires
        cache.schedules.contains_key(epoch),
    ensures
        cache.warmed(epoch, schedule) == cache,
{
}

/// Warming a new epoch puts it last in the order and drops epochs from the front of the order
/// until no more are left than the cache has room for. An epoch is cached from then on exactly
/// where it is left in the order: the new one with the schedule that was offered, any other one
/// with the schedule that it had. The newest confirmed epoch is the larger one of what it was and
/// the new epoch, and nothing else changes.
pub proof fn law_warming_a_new_epoch(
    cache: CacheView,
    epoch: Epoch,
    schedule: Arc<LeaderSchedule>,
)
    requires
        cache.well_formed(),
        !cache.schedules.contains_key(epoch),
    ensures
        ({
            let after = cache.warmed(epoch, schedule);
            let pushed = cache.order.push(epoch);
            let dropped = pushed.len() - after.order.len();
            &&& 0 <= dropped
            &&& after.order.len() <= cache.max_schedules
            &&& dropped > 0 ==> after.order.len() == cache.max_schedules
            &&& forall|i: int|
                0 <= i < after.order.len() ==> #[trigger] after.order[i] == pushed[dropped + i]
            &&& forall|e: Epoch| #[trigger]
                after.schedules.contains_key(e) <==> after.order.contains(e)
            &&& after.schedules.contains_key(epoch) ==> after.schedules[epoch] == schedule
            &&& forall|e: Epoch|
                e != epoch && #[trigger] after.schedules.contains_key(e)
                    ==> cache.schedules.contains_key(e) && after.schedules[e]
                    == cache.schedules[e]
            &&& after.max_epoch >= cache.max_epoch
            &&& after.max_epoch >= epoch
            &&& after.max_epoch == cache.max_epoch || after.max_epoch == epoch
            &&& after.epoch_schedule == cache.epoch_schedule
            &&& after.max_schedules == cache.max_schedules
            &&& after.fixed_schedule == cache.fixed_schedule
        }),
{
    let after = cache.warmed(epoch, schedule);
    crate::cache_laws::law_warming_keeps_the_cache_in_order(cache, epoch, schedule);
    law_order_lists_the_cached_epochs(after);
}

/// Rooting a slot leaves as newest confirmed epoch the larger one of what it was and the newest
/// epoch whose schedule is due at that slot, wherever in its epoch the slot lies.
pub proof fn law_root_confirms_what_is_due(cache: CacheView, root_slot: Slot)
    ensures
        ({
            let due = cache.epoch_schedule.leader_schedule_epoch_of(root_slot as int);
            let after = cache.rooted(root_slot);
            &&& after.max_epoch >= due
            &&& after.max_epoch >= cache.max_epoch
            &&& after.max_epoch == due || after.max_epoch == cache.max_epoch
        }),
{
}

/// Rooting a slot drops epochs from the front of the order until no more are left than the cache
/// has room for, none where there are no more. An epoch is cached from then on exactly where it is
/// left in the order, with the schedule that it had, and nothing but the newest confirmed epoch
/// changes besides.
pub proof fn law_rooting_drops_what_is_over_capacity(cache: CacheView, root_slot: Slot)
    requires
        cache.well_formed(),
    ensures
        ({
            let after = cache.rooted(root_slot);
            let dropped = cache.order.len() - after.order.len();
            &&& 0 <= dropped
            &&& after.order.len() <= cache.max_schedules
            &&& dropped > 0 ==> after.order.len() == cache.max_schedules
            &&& forall|i: int|
                0 <= i < after.order.len() ==> #[trigger] after.order[i] == cache.order[dropped
                    + i]
            &&& forall|e: Epoch| #[trigger]
                after.schedules.contains_key(e) <==> after.order.contains(e)
            &&& forall|e: Epoch| #[trigger]
                after.schedules.contains_key(e) ==> cache.schedules.contains_key(e)
                    && after.schedules[e] == cache.schedules[e]
            &&& after.epoch_schedule == cache.epoch_schedule
            &&& after.max_schedules == cache.max_schedules
            &&& after.fixed_schedule == cache.fixed_schedule
        }),
{
    let after = cache.rooted(root_slot);
    let dropped = cache.order.len() - after.order.len();
    assert forall|e: Epoch| #[trigger]
        after.schedules.contains_key(e) <==> after.order.contains(e) by {
        assert(after.order.to_set().contains(e) == after.order.contains(e));
        if after.order.contains(e) {
            let i = choose|i: int| 0 <= i < after.order.len() && after.order[i] == e;
            assert(cache.order[dropped + i] == e);
            assert(cache.order.to_set().contains(e));
        }
    }
}

/// Looking up a cached epoch moves it from where it stands to the end of the order, and changes
/// nothing else. An epoch that is not cached, and any epoch under a fixed schedule, is looked up
/// without a trace.
pub proof fn law_lookup_moves_the_epoch_to_the_end(cache: CacheView, epoch: Epoch)
    requires
        cache.well_formed(),
    ensures
        cache.fixed_schedule is Some || !cache.schedules.contains_key(epoch) ==> cache.used(epoch)
            == cache,
        cache.fixed_schedule is None && cache.schedules.contains_key(epoch) ==> {
            let after = cache.used(epoch);
            exists|at: int|
                #![trigger cache.order[at]]
                {
                    &&& 0 <= at < cache.order.len()
                    &&& cache.order[at] == epoch
                    &&& after.order.len() == cache.order.len()
                    &&& after.order[cache.order.len() - 1] == epoch
                    &&& forall|i: int|
                        0 <= i < at ==> #[trigger] after.order[i] == cache.order[i]
                    &&& forall|i: int|
                        at <= i < cache.order.len() - 1 ==> #[trigger] after.order[i]
                            == cache.order[i + 1]
                }
        },
        cache.used(epoch).schedules == cache.schedules,
        cache.used(epoch).epoch_schedule == cache.epoch_schedule,
        cache.used(epoch).max_epoch == cache.max_epoch,
        cache.used(epoch).max_schedules == cache.max_schedules,
        cache.used(epoch).fixed_schedule == cache.fixed_schedule,
{
    lemma_used(cache, epoch);
    if cache.fixed_schedule is None && cache.schedules.contains_key(epoch) {
        assert(cache.order.to_set().contains(epoch));
        let at = cache.order.index_of(epoch);
        assert(0 <= at < cache.order.len() && cache.order[at] == epoch);
    }
}

/// Looking up several cached epochs in ascending order moves them behind all others: the others
/// keep their order, and the ones that were looked up follow, ascending.
pub proof fn law_lookups_move_the_epochs_behind_the_others(cache: CacheView, from: int, to: int)
    requires
        cache.well_formed(),
        cache.fixed_schedule is None,
        0 <= from <= to,
        from == to || to - 1 <= u64::MAX,
        forall|e: int| from <= e < to ==> cache.schedules.contains_key(#[trigger] (e as Epoch)),
    ensures
        cache.used_through(from, to).order == cache.order.filter(
            |e: Epoch| !(from <= e < to),
        ) + Seq::new((to - from) as nat, |i: int| (from + i) as Epoch),
        cache.used_through(from, to) == (CacheView {
            order: cache.used_through(from, to).order,
            ..cache
        }),
    decreases to - from,
{
    lemma_used_through(cache, from, to);
    let outside = |e: Epoch| !(from <= e < to);
    let tail = Seq::new((to - from) as nat, |i: int| (from + i) as Epoch);
    if from == to {
        lemma_filter_keeps_all(cache.order, outside);
        assert(cache.order.filter(outside) + tail =~= cache.order);
    } else {
        let last = (to - 1) as Epoch;
        let before = cache.used_through(from, to - 1);
        let wider = |e: Epoch| !(from <= e < to - 1);
        let shorter = Seq::new((to - 1 - from) as nat, |i: int| (from + i) as Epoch);
        law_lookups_move_the_epochs_behind_the_others(cache, from, to - 1);
        lemma_used_through(cache, from, to - 1);
        assert(before.order == cache.order.filter(wider) + shorter);
        assert(before.schedules.contains_key(last));
        assert(before.order.to_set().contains(last));
        let at = before.order.index_of(last);
        assert(0 <= at < before.order.len() && before.order[at] == last);
        let not_last = |e: Epoch| e != last;
        let moved = before.order.remove(at);
        lemma_remove_is_filter(before.order, at, last);
        assert(moved == before.order.filter(not_last));
        Seq::filter_distributes_over_add(cache.order.filter(wider), shorter, not_last);
        lemma_filter_keeps_all(shorter, not_last);
        lemma_filter_twice(cache.order, wider, not_last, outside);
        assert(moved == cache.order.filter(outside) + shorter);
        assert(shorter.push(last) =~= tail);
        assert(moved.push(last) =~= cache.order.filter(outside) + tail);
    }
}

proof fn lemma_filter_keeps_all(order: Seq<Epoch>, pred: spec_fn(Epoch) -> bool)
    requires
        forall|i: int| 0 <= i < order.len() ==> pred(#[trigger] order[i]),
    ensures
        order.filter(pred) == order,
    decreases order.len(),
{
    reveal(Seq::filter);
    if order.len() > 0 {
        let fewer = order.drop_last();
        assert forall|i: int| 0 <= i < fewer.len() implies pred(#[trigger] fewer[i]) by {
            assert(fewer[i] == order[i]);
        }
        lemma_filter_keeps_all(fewer, pred);
        assert(pred(order[order.len() - 1]));
        assert(fewer.push(order.last()) =~= order);
    }
}

proof fn lemma_filter_twice(
    order: Seq<Epoch>,
    first: spec_fn(Epoch) -> bool,
    second: spec_fn(Epoch) -> bool,
    both: spec_fn(Epoch) -> bool,
)
    requires
        forall|e: Epoch| #[trigger] both(e) == (first(e) && second(e)),
    ensures
        order.filter(first).filter(second) == order.filter(both),
    decreases order.len(),
{
    reveal(Seq::filter);
    if order.len() > 0 {
        let fewer = order.drop_last();
        lemma_filter_twice(fewer, first, second, both);
        let last = order.last();
        assert(both(last) == (first(last) && second(last)));
        if first(last) {
            let kept = fewer.filter(first).push(last);
            assert(kept.drop_last() =~= fewer.filter(first));
        }
    }
}

proof fn lemma_remove_is_filter(order: Seq<Epoch>, at: int, epoch: Epoch)
    requires
        0 <= at < order.len(),
        order[at] == epoch,
        order.no_duplicates(),
    ensures
        order.remove(at) == order.filter(|e: Epoch| e != epoch),
{
    let pred = |e: Epoch| e != epoch;
    let front = order.take(at);
    let one = seq![epoch];
    let back = order.skip(at + 1);
    assert(order =~= (front + one) + back);
    Seq::filter_distributes_over_add(front + one, back, pred);
    Seq::filter_distributes_over_add(front, one, pred);
    lemma_filter_keeps_all(front, pred);
    lemma_filter_keeps_all(back, pred);
    lemma_filter_keeps_all(Seq::empty(), pred);
    reveal(Seq::filter);
    assert(one.drop_last() =~= Seq::<Epoch>::empty());
    assert(one.filter(pred) =~= Seq::<Epoch>::empty());
    assert(order.remove(at) =~= front + back);
    assert((front + Seq::<Epoch>::empty()) =~= front);
}

/// The fixed schedule answers for every epoch where there is one; else the cached schedule of an
/// epoch answers for that epoch, and for an epoch that is not cached nothing does.
pub proof fn law_which_schedule_answers(cache: CacheView, epoch: Epoch)
    ensures
        match cache.fixed_schedule {
            Some(fixed) => cache.schedule_for(epoch as int) == Some(*fixed),
            None => {
                &&& cache.schedules.contains_key(epoch) ==> cache.schedule_for(epoch as int)
                    == Some(*cache.schedules[epoch])
                &&& !cache.schedules.contains_key(epoch) ==> cache.schedule_for(
                    epoch as int,
                ) is None
            },
        },
{
}

/// The leader of a slot is the one at the slot's index of the schedule that answers for the slot's
/// epoch, which starts over after its last slot.
pub proof fn law_leader_is_at_the_index_of_the_slot(
    cache: CacheView,
    slot: int,
    epoch: Epoch,
    schedule: LeaderSchedule,
)
    requires
        epoch == cache.epoch_schedule.epoch_of(slot),
        cache.schedule_for(epoch as int) == Some(schedule),
        crate::leader_schedule::schedule_slots(schedule).len() <= usize::MAX,
        0 <= cache.epoch_schedule.index_of(slot) <= u64::MAX,
        cache.epoch_schedule.index_of(slot) <= usize::MAX,
    ensures
        cache.leader_of(slot) == Some(
            crate::leader_schedule::schedule_slots(schedule)[cache.epoch_schedule.index_of(slot)
                % crate::leader_schedule::schedule_slots(schedule).len() as int],
        ),
{
}

/// A slot has a leader exactly where a schedule answers for its epoch.
pub proof fn law_slot_has_a_leader_iff_a_schedule_answers(cache: CacheView, slot: int)
    ensures
        cache.leader_of(slot) is Some <==> cache.schedule_for(
            cache.epoch_schedule.epoch_of(slot),
        ) is Some,
{
}

/// The leader of a slot can be looked up unless the slot has no position, or a schedule without
/// slots answers for its epoch.
pub proof fn law_when_a_leader_can_be_looked_up(cache: CacheView, slot: int)
    ensures
        cache.can_look_up(slot) <==> {
            &&& slot >= cache.epoch_schedule.first_normal_slot || slot + 33
                <= 0x8000_0000_0000_0000
            &&& match cache.schedule_for(cache.epoch_schedule.epoch_of(slot)) {
                Some(schedule) => crate::leader_schedule::schedule_slots(schedule).len() > 0,
                None => true,
            }
        },
        cache.epoch_schedule.covers(slot) <==> (slot >= cache.epoch_schedule.first_normal_slot
            || slot + 33 <= 0x8000_0000_0000_0000),
        cache.confirms(slot) <==> cache.epoch_schedule.epoch_of(slot) <= cache.max_epoch,
{
}

/// A validator leads an index of a schedule exactly where it is the leader of the slot there; the
/// schedule starts over after its last slot, and nobody leads a schedule without slots.
pub proof fn law_who_leads_an_index(schedule: LeaderSchedule, leader: Pubkey, index: int)
    ensures
        ({
            let slots = crate::leader_schedule::schedule_slots(schedule);
            crate::leader_schedule::leads(schedule, leader, index) <==> slots.len() > 0
                && slots[index % slots.len() as int].id == leader
        }),
{
}

/// Stakes add up: there is none without accounts, and an account that comes in adds its stake.
pub proof fn law_stakes_add_up(
    accounts: Map<Pubkey, (u64, VoteAccount)>,
    address: Pubkey,
    account: (u64, VoteAccount),
)
    requires
        accounts.dom().finite(),
        !accounts.contains_key(address),
    ensures
        crate::leader_schedule::total_stake(Map::empty()) == 0,
        crate::leader_schedule::total_stake(accounts.insert(address, account))
            == crate::leader_schedule::total_stake(accounts) + account.0,
{
    let none = Map::<Pubkey, (u64, VoteAccount)>::empty();
    vstd::set::fold::lemma_fold_empty(0, crate::leader_schedule::stake_adder(none));
    assert(none.dom() =~= Set::<Pubkey>::empty());
    let more = accounts.insert(address, account);
    let adder = crate::leader_schedule::stake_adder(more);
    assert(vstd::set::fold::is_fun_commutative(adder));
    vstd::set::fold::lemma_fold_insert(accounts.dom(), 0, adder, address);
    assert(more.dom() =~= accounts.dom().insert(address));
    crate::leader_schedule::lemma_stake_depends_on_the_accounts(accounts, more, accounts.dom());
}

/// A schedule can be drawn exactly where the accounts hold stake, no more than a `u64` counts, a
/// turn has slots, and the choices of 64 bytes fit in memory.
pub proof fn law_when_a_schedule_can_be_drawn(
    accounts: Map<Pubkey, (u64, VoteAccount)>,
    len: int,
    repeat: int,
)
    ensures
        crate::leader_schedule::can_be_drawn(accounts, len, repeat) <==> {
            &&& crate::leader_schedule::total_stake(accounts) > 0
            &&& crate::leader_schedule::total_stake(accounts) <= u64::MAX
            &&& repeat > 0
            &&& len / repeat * 64 <= isize::MAX
        },
{
}

/// A leader is looked up by its index as a machine integer, modulo the number of slots as a machine
/// integer.
pub proof fn law_leader_at_an_index(schedule: LeaderSchedule, index: u64)
    ensures
        ({
            let slots = crate::leader_schedule::schedule_slots(schedule);
            let count = crate::leader_schedule::slot_count(schedule);
            &&& slots.len() <= usize::MAX ==> count == slots.len()
            &&& slots.len() > usize::MAX ==> count == usize::MAX
            &&& crate::leader_schedule::leader_in(schedule, index) == slots[(index as usize) as int
                % count]
        }),
{
}

/// The leader of a slot is the one that the schedule of its epoch has for the slot's index.
pub proof fn law_leader_comes_from_the_schedule_of_the_epoch(cache: CacheView, slot: int)
    ensures
        cache.schedule_for(cache.epoch_schedule.epoch_of(slot)) matches Some(schedule)
            ==> cache.leader_of(slot) == Some(
            crate::leader_schedule::leader_in(
                schedule,
                cache.epoch_schedule.index_of(slot) as u64,
            ),
        ),
{
}

} // verus!
