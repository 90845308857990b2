//! The leader schedules that are held in memory, by epoch.

use crate::epoch_schedule::EpochSchedule;
use crate::leader_schedule::{leader_at, next_led_index, num_slots, FixedSchedule, SlotLeader};
use solana_clock::{Epoch, Slot};
use solana_leader_schedule::LeaderSchedule;
use solana_pubkey::Pubkey;
use std::collections::{HashMap, VecDeque};
use std::sync::Arc;
use vstd::prelude::*;

verus! {

broadcast use vstd::std_specs::hash::group_hash_axioms;

/// The schedules by epoch, and the epochs in LRU eviction order: the least recently used one comes
/// first.
pub type CachedSchedules = (HashMap<Epoch, Arc<LeaderSchedule>>, VecDeque<u64>);

/// How many schedules a cache holds unless told otherwise.
pub const MAX_SCHEDULES: usize = 10;

/// How many schedules a cache holds.
#[derive(Debug, Clone, Copy)]
pub struct CacheCapacity(pub usize);

impl Default for CacheCapacity {
    fn default() -> (capacity: Self)
        ensures
            capacity.0 == MAX_SCHEDULES,
            capacity.0 == 10,
    {
        CacheCapacity(MAX_SCHEDULES)
    }
}

/// The leader schedules of confirmed and warmed epochs.
pub struct LeaderScheduleCache {
    /// Map from an epoch to a leader schedule for that epoch, along with LRU eviction order.
    pub cached_schedules: CachedSchedules,
    pub epoch_schedule: EpochSchedule,
    /// The newest epoch whose schedule is confirmed or warmed.
    pub max_epoch: u64,
    pub max_schedules: CacheCapacity,
    /// Answers for every epoch in place of the cached schedules.
    pub fixed_schedule: Option<Arc<FixedSchedule>>,
}

/// What a cache holds.
#[verifier::ext_equal]
pub struct CacheView {
    pub schedules: Map<Epoch, Arc<LeaderSchedule>>,
    pub order: Seq<Epoch>,
    pub epoch_schedule: EpochSchedule,
    pub max_epoch: Epoch,
    pub max_schedules: usize,
    pub fixed_schedule: Option<Arc<LeaderSchedule>>,
}

impl View for LeaderScheduleCache {
    type V = CacheView;

    open spec fn view(&self) -> CacheView {
        CacheView {
            schedules: self.cached_schedules.0@,
            order: self.cached_schedules.1@,
            epoch_schedule: self.epoch_schedule,
            max_epoch: self.max_epoch,
            max_schedules: self.max_schedules.0,
            fixed_schedule: match self.fixed_schedule {
                Some(fixed) => Some(fixed.leader_schedule),
                None => None,
            },
        }
    }
}

impl CacheView {
    /// A cache without schedules.
    pub open spec fn empty(epoch_schedule: EpochSchedule, max_epoch: Epoch) -> CacheView {
        CacheView {
            schedules: Map::empty(),
            order: Seq::empty(),
            epoch_schedule,
            max_epoch,
            max_schedules: MAX_SCHEDULES,
            fixed_schedule: None,
        }
    }

    /// The order lists each cached epoch once, and no other.
    pub open spec fn well_formed(self) -> bool {
        &&& self.order.no_duplicates()
        &&& self.order.to_set() == self.schedules.dom()
    }

    /// The last `max` of the epochs in `order`; all of them where there are no more.
    pub open spec fn latest(order: Seq<Epoch>, max: int) -> Seq<Epoch> {
        if order.len() > max {
            order.skip(order.len() - max)
        } else {
            order
        }
    }

    /// The cache after `schedule` was offered for `epoch`: an epoch that is already cached keeps
    /// its schedule; a new one is the most recently used, and the least recently used leave where
    /// there are more than `max_schedules`.
    pub open spec fn warmed(self, epoch: Epoch, schedule: Arc<LeaderSchedule>) -> CacheView {
        if self.schedules.contains_key(epoch) {
            self
        } else {
            let order = Self::latest(self.order.push(epoch), self.max_schedules as int);
            CacheView {
                schedules: self.schedules.insert(epoch, schedule).restrict(order.to_set()),
                order,
                max_epoch: if epoch > self.max_epoch {
                    epoch
                } else {
                    self.max_epoch
                },
                ..self
            }
        }
    }

    /// The cache after `slot` was rooted: the least recently used epochs leave where there are
    /// more than `max_schedules`.
    pub open spec fn rooted(self, slot: Slot) -> CacheView {
        let epoch = self.epoch_schedule.leader_schedule_epoch_of(slot as int);
        let order = Self::latest(self.order, self.max_schedules as int);
        CacheView {
            schedules: self.schedules.restrict(order.to_set()),
            order,
            max_epoch: if epoch > self.max_epoch {
                epoch as Epoch
            } else {
                self.max_epoch
            },
            ..self
        }
    }

    /// The cache after the schedule of `epoch` was looked up: a cached epoch is now the most
    /// recently used. A fixed schedule answers without a look at the cache.
    pub open spec fn used(self, epoch: Epoch) -> CacheView {
        if self.fixed_schedule is None && self.schedules.contains_key(epoch) {
            CacheView {
                order: self.order.remove(self.order.index_of(epoch)).push(epoch),
                ..self
            }
        } else {
            self
        }
    }

    /// The cache after the schedules of the epochs from `from` up to but not including `to` were
    /// looked up, in ascending order.
    pub open spec fn used_through(self, from: int, to: int) -> CacheView
        decreases to - from,
    {
        if from >= to {
            self
        } else {
            self.used_through(from, to - 1).used((to - 1) as Epoch)
        }
    }

    /// The schedule that answers for `epoch`.
    pub open spec fn schedule_for(self, epoch: int) -> Option<LeaderSchedule> {
        if epoch < 0 || epoch > u64::MAX {
            None
        } else if self.fixed_schedule is Some {
            Some(*self.fixed_schedule->0)
        } else if self.schedules.contains_key(epoch as Epoch) {
            Some(*self.schedules[epoch as Epoch])
        } else {
            None
        }
    }

    /// The leader of `slot` by the schedule that answers for its epoch.
    pub open spec fn leader_of(self, slot: int) -> Option<SlotLeader> {
        match self.schedule_for(self.epoch_schedule.epoch_of(slot)) {
            Some(schedule) => Some(
                crate::leader_schedule::leader_in(
                    schedule,
                    self.epoch_schedule.index_of(slot) as u64,
                ),
            ),
            None => None,
        }
    }

    /// Whether the epoch of `slot` is confirmed or warmed.
    pub open spec fn confirms(self, slot: int) -> bool {
        self.epoch_schedule.epoch_of(slot) <= self.max_epoch
    }

    /// Whether the leader of `slot` can be looked up: the slot has a position, and the schedule
    /// that answers for its epoch, if there is one, is not empty.
    pub open spec fn can_look_up(self, slot: int) -> bool {
        &&& self.epoch_schedule.covers(slot)
        &&& self.schedule_for(self.epoch_schedule.epoch_of(slot)) matches Some(schedule)
            ==> crate::leader_schedule::schedule_slots(schedule).len() > 0
    }

    /// The slots that `leader` leads by `schedule`, from index `from` up to index `bound` of an
    /// epoch that starts at slot `base`, in ascending order.
    pub open spec fn led_slots(
        schedule: LeaderSchedule,
        leader: Pubkey,
        from: int,
        bound: int,
        base: int,
    ) -> Seq<int>
        decreases bound - from,
    {
        if from >= bound {
            Seq::empty()
        } else if crate::leader_schedule::leads(schedule, leader, from) {
            seq![base + from] + Self::led_slots(schedule, leader, from + 1, bound, base)
        } else {
            Self::led_slots(schedule, leader, from + 1, bound, base)
        }
    }

    /// The slots that `leader` leads from index `from` of `epoch` on, epoch by epoch, up to
    /// `max_epoch` or to the first epoch without a schedule.
    pub open spec fn upcoming(self, leader: Pubkey, epoch: int, from: int) -> Seq<int>
        decreases self.max_epoch - epoch + 1,
    {
        if epoch > self.max_epoch {
            Seq::empty()
        } else {
            match self.schedule_for(epoch) {
                Some(schedule) => Self::led_slots(
                    schedule,
                    leader,
                    from,
                    self.epoch_schedule.slots_in(epoch),
                    self.epoch_schedule.first_slot_in(epoch),
                ) + self.upcoming(leader, epoch + 1, 0),
                None => Seq::empty(),
            }
        }
    }

    /// How many of `slots`, of which the first `n` are known to do so, follow one another
    /// without a gap and lie below `limit`. The first one always counts.
    pub open spec fn run_length(slots: Seq<int>, limit: int, n: int) -> int
        decreases slots.len() - n,
    {
        if n < slots.len() && slots[n] == slots[0] + n && slots[n] < limit {
            Self::run_length(slots, limit, n + 1)
        } else {
            n
        }
    }

    /// The first slot after `slot` that `leader` leads, and the last one of the unbroken run of
    /// led slots that starts there, less than `range` slots on.
    pub open spec fn next_led(self, leader: Pubkey, slot: int, range: int) -> Option<(int, int)> {
        let epoch = self.epoch_schedule.epoch_of(slot + 1);
        let slots = self.upcoming(leader, epoch, self.epoch_schedule.index_of(slot + 1));
        if epoch > self.max_epoch || slots.len() == 0 {
            None
        } else {
            let limit = EpochSchedule::capped(slots[0] + range);
            Some((slots[0], slots[0] + Self::run_length(slots, limit, 1) - 1))
        }
    }

    /// Whether `found` is what [`CacheView::next_led`] gives, in machine integers.
    pub open spec fn finds(
        self,
        leader: Pubkey,
        slot: int,
        range: int,
        found: Option<(Slot, Slot)>,
    ) -> bool {
        self.next_led(leader, slot, range) == (match found {
            Some((first, last)) => Some((first as int, last as int)),
            None => None,
        })
    }

    /// Whether there is a schedule for each epoch from `from` to `epoch`.
    pub open spec fn reaches(self, from: int, epoch: int) -> bool {
        forall|e: int| from <= e <= epoch ==> (#[trigger] self.schedule_for(e)) is Some
    }

    /// The first epoch from `from` on that is not confirmed or has no schedule.
    pub open spec fn reach(self, from: int) -> int
        decreases self.max_epoch - from + 1,
    {
        if from > self.max_epoch || self.schedule_for(from) is None {
            from
        } else {
            self.reach(from + 1)
        }
    }

    /// Whether indices into `epoch` and twice the indices into its schedule are machine integers.
    pub open spec fn fits(self, epoch: int) -> bool {
        self.schedule_for(epoch) matches Some(schedule) ==> {
            &&& self.epoch_schedule.slots_in(epoch) <= usize::MAX
            &&& crate::leader_schedule::schedule_slots(schedule).len() <= usize::MAX / 2
        }
    }

    /// Whether [`CacheView::fits`] holds of each epoch that a search from `epoch` on comes to.
    pub open spec fn search_fits(self, epoch: int) -> bool {
        forall|e: int|
            epoch <= e <= self.max_epoch && #[trigger] self.reaches(epoch, e) ==> self.fits(e)
    }

    /// Whether the slots that `leader` leads after `slot` can be searched: there is a next slot
    /// and it has a position, the schedules fit, and the first led slot, if there is one, is a
    /// machine integer.
    pub open spec fn can_search(self, leader: Pubkey, slot: int) -> bool {
        let epoch = self.epoch_schedule.epoch_of(slot + 1);
        let slots = self.upcoming(leader, epoch, self.epoch_schedule.index_of(slot + 1));
        &&& slot < u64::MAX
        &&& self.epoch_schedule.covers(slot + 1)
        &&& self.search_fits(epoch)
        &&& slots.len() > 0 ==> slots[0] <= u64::MAX
    }

    /// The cache after a search for leader slots after `slot`: it looks up each epoch from there
    /// on, up to `max_epoch` or to the first epoch without a schedule.
    pub open spec fn after_search(self, slot: int) -> CacheView {
        let epoch = self.epoch_schedule.epoch_of(slot + 1);
        self.used_through(epoch, self.reach(epoch))
    }
}

/// Looking up an epoch changes the order alone, and keeps the cache well-formed.
pub(crate) proof fn lemma_used(cache: CacheView, epoch: Epoch)
    requires
        cache.well_formed(),
    ensures
        cache.used(epoch).well_formed(),
        cache.used(epoch) == (CacheView { order: cache.used(epoch).order, ..cache }),
        cache.used(epoch).order.len() == cache.order.len(),
{
    if cache.fixed_schedule is None && cache.schedules.contains_key(epoch) {
        let order = cache.order;
        assert(order.to_set().contains(epoch));
        let at = order.index_of(epoch);
        assert(0 <= at < order.len() && order[at] == epoch);
        let moved = cache.used(epoch).order;
        assert forall|e: Epoch| moved.contains(e) == order.contains(e) by {
            assert(moved[moved.len() - 1] == epoch);
            if order.contains(e) && e != epoch {
                let i = choose|i: int| 0 <= i < order.len() && order[i] == e;
                if i < at {
                    assert(moved[i] == e);
                } else {
                    assert(moved[i - 1] == e);
                }
            }
            if moved.contains(e) && e != epoch {
                let i = choose|i: int| 0 <= i < moved.len() && moved[i] == e;
                assert(order[if i < at {
                    i
                } else {
                    i + 1
                }] == e);
            }
        }
        assert(moved.to_set() =~= order.to_set());
    }
}

/// Looking up epochs changes the order alone, and keeps the cache well-formed.
pub(crate) proof fn lemma_used_through(cache: CacheView, from: int, to: int)
    requires
        cache.well_formed(),
    ensures
        cache.used_through(from, to).well_formed(),
        cache.used_through(from, to) == (CacheView {
            order: cache.used_through(from, to).order,
            ..cache
        }),
        cache.used_through(from, to).order.len() == cache.order.len(),
        cache.fixed_schedule is Some ==> cache.used_through(from, to) == cache,
    decreases to - from,
{
    if from < to {
        lemma_used_through(cache, from, to - 1);
        lemma_used(cache.used_through(from, to - 1), (to - 1) as Epoch);
    }
}

/// A schedule starts over after its last slot.
proof fn lemma_leads_starts_over(schedule: LeaderSchedule, leader: Pubkey, rounds: int, index: int)
    requires
        crate::leader_schedule::schedule_slots(schedule).len() > 0,
    ensures
        crate::leader_schedule::leads(
            schedule,
            leader,
            crate::leader_schedule::schedule_slots(schedule).len() * rounds + index,
        ) == crate::leader_schedule::leads(schedule, leader, index),
{
    vstd::arithmetic::div_mod::lemma_mod_multiples_vanish(
        rounds,
        index,
        crate::leader_schedule::schedule_slots(schedule).len() as int,
    );
}

/// Slots that nobody of interest leads can be passed over.
proof fn lemma_led_slots_skip(
    schedule: LeaderSchedule,
    leader: Pubkey,
    from: int,
    to: int,
    bound: int,
    base: int,
)
    requires
        from <= to <= bound,
        forall|i: int| from <= i < to ==> !crate::leader_schedule::leads(schedule, leader, i),
    ensures
        CacheView::led_slots(schedule, leader, from, bound, base) == CacheView::led_slots(
            schedule,
            leader,
            to,
            bound,
            base,
        ),
    decreases to - from,
{
    if from < to {
        lemma_led_slots_skip(schedule, leader, from + 1, to, bound, base);
    }
}

/// A run ends where its next slot is missing, not adjacent or too far on.
proof fn lemma_run_length(slots: Seq<int>, limit: int, m: int, n: int)
    requires
        1 <= m <= n <= slots.len(),
        forall|i: int| m <= i < n ==> #[trigger] slots[i] == slots[0] + i && slots[i] < limit,
        n < slots.len() ==> slots[n] != slots[0] + n || slots[n] >= limit,
    ensures
        CacheView::run_length(slots, limit, m) == n,
    decreases n - m,
{
    if m < n {
        lemma_run_length(slots, limit, m + 1, n);
    }
}

impl Default for LeaderScheduleCache {
    fn default() -> (cache: Self)
        ensures
            cache@ == CacheView::empty(
                EpochSchedule {
                    slots_per_epoch: 432_000,
                    leader_schedule_slot_offset: 432_000,
                    warmup: false,
                    first_normal_epoch: 0,
                    first_normal_slot: 0,
                },
                0,
            ),
            cache@.well_formed(),
    {
        LeaderScheduleCache::new(EpochSchedule::without_warmup(), 0)
    }
}

impl LeaderScheduleCache {
    /// A cache without schedules.
    pub fn new(epoch_schedule: EpochSchedule, max_epoch: Epoch) -> (cache: Self)
        ensures
            cache@ == CacheView::empty(epoch_schedule, max_epoch),
            cache@.well_formed(),
    {
        let cache = Self {
            cached_schedules: (HashMap::new(), VecDeque::new()),
            epoch_schedule,
            max_epoch,
            max_schedules: CacheCapacity::default(),
            fixed_schedule: None,
        };
        assert(cache@.order.to_set() =~= cache@.schedules.dom());
        cache
    }

    pub fn max_schedules(&self) -> (max_schedules: usize)
        ensures
            max_schedules == self@.max_schedules,
    {
        self.max_schedules.0
    }

    pub fn max_epoch(&self) -> (max_epoch: Epoch)
        ensures
            max_epoch == self@.max_epoch,
    {
        self.max_epoch
    }

    /// Checks if a schedule for the given epoch is present in the cache.
    pub fn has_epoch(&self, epoch: Epoch) -> (present: bool)
        ensures
            present == self@.schedules.contains_key(epoch),
    {
        self.cached_schedules.0.contains_key(&epoch)
    }

    /// Sets the root slot: raises `max_epoch` to the newest epoch whose schedule is due then,
    /// evicts the least recently used schedules if there are more than the cache is to hold, and
    /// returns that epoch.
    pub fn set_root_slot(&mut self, root_slot: Slot) -> (epoch: Epoch)
        requires
            old(self)@.well_formed(),
            old(self)@.epoch_schedule.covers(root_slot as int),
        ensures
            epoch == old(self)@.epoch_schedule.leader_schedule_epoch_of(root_slot as int),
            final(self)@ == old(self)@.rooted(root_slot),
            final(self)@.well_formed(),
            final(self)@.schedules.dom().len() <= final(self)@.max_schedules,
    {
        let max_schedules = self.max_schedules();
        Self::retain_latest(
            &mut self.cached_schedules.0,
            &mut self.cached_schedules.1,
            max_schedules,
        );
        let new_max_epoch = self.epoch_schedule.get_leader_schedule_epoch(root_slot);
        if new_max_epoch > self.max_epoch {
            self.max_epoch = new_max_epoch;
        }
        new_max_epoch
    }

    /// The leader schedule of an epoch: the fixed one where there is one, else the cached one,
    /// which is then the most recently used.
    pub fn get_epoch_leader_schedule(&mut self, epoch: Epoch) -> (schedule: Option<
        Arc<LeaderSchedule>,
    >)
        requires
            old(self)@.well_formed(),
        ensures
            match schedule {
                Some(found) => old(self)@.schedule_for(epoch as int) == Some(*found),
                None => old(self)@.schedule_for(epoch as int) is None,
            },
            final(self)@ == old(self)@.used(epoch),
            final(self)@.well_formed(),
    {
        self.mark_used(epoch);
        proof {
            lemma_used(old(self)@, epoch);
        }
        self.peek(epoch)
    }

    /// The leader schedule of an epoch, without a mark of its use.
    pub(crate) fn peek(&self, epoch: Epoch) -> (schedule: Option<Arc<LeaderSchedule>>)
        ensures
            match schedule {
                Some(found) => self@.schedule_for(epoch as int) == Some(*found),
                None => self@.schedule_for(epoch as int) is None,
            },
    {
        if let Some(fixed_schedule) = &self.fixed_schedule {
            return Some(fixed_schedule.leader_schedule.clone());
        }
        match self.cached_schedules.0.get(&epoch) {
            Some(schedule) => Some(schedule.clone()),
            None => None,
        }
    }

    /// Makes an epoch the most recently used, if it is cached and no fixed schedule answers.
    fn mark_used(&mut self, epoch: Epoch)
        requires
            old(self)@.well_formed(),
        ensures
            final(self)@ == old(self)@.used(epoch),
            final(self)@.well_formed(),
    {
        proof {
            lemma_used(self@, epoch);
        }
        if self.fixed_schedule.is_some() || !self.has_epoch(epoch) {
            return;
        }
        let ghost order = self@.order;
        assert(order.to_set().contains(epoch));
        let mut i: usize = 0;
        while i < self.cached_schedules.1.len() && self.cached_schedules.1[i] != epoch
            invariant
                self == old(self),
                order == self@.order,
                i <= order.len(),
                forall|j: int| 0 <= j < i ==> order[j] != epoch,
            decreases order.len() - i,
        {
            i = i + 1;
        }
        assert(i == order.index_of(epoch));
        self.cached_schedules.1.remove(i);
        self.cached_schedules.1.push_back(epoch);
        assert(self@ =~= old(self)@.used(epoch));
    }

    /// Makes the epochs from `from` up to but not including `to` the most recently used, one after
    /// the other, as far as they are cached and no fixed schedule answers.
    pub(crate) fn mark_used_through(&mut self, from: Epoch, to: Epoch)
        requires
            old(self)@.well_formed(),
        ensures
            final(self)@ == old(self)@.used_through(from as int, to as int),
            final(self)@.well_formed(),
    {
        proof {
            lemma_used_through(self@, from as int, to as int);
        }
        if self.fixed_schedule.is_some() {
            return;
        }
        let mut at: Epoch = from;
        while at < to
            invariant
                from <= at,
                at <= to || at == from,
                self@ == old(self)@.used_through(from as int, at as int),
                self@.well_formed(),
            decreases to - at,
        {
            self.mark_used(at);
            at = at + 1;
        }
    }

    /// Makes one schedule answer for every epoch, or ends that.
    pub fn set_fixed_leader_schedule(&mut self, fixed_schedule: Option<FixedSchedule>)
        ensures
            final(self)@ == (CacheView {
                fixed_schedule: match fixed_schedule {
                    Some(fixed) => Some(fixed.leader_schedule),
                    None => None,
                },
                ..old(self)@
            }),
    {
        self.fixed_schedule = match fixed_schedule {
            Some(fixed) => Some(Arc::new(fixed)),
            None => None,
        };
    }

    /// Warms the cache by inserting a pre-computed leader schedule for an epoch. The pre-cacher
    /// does so before the epoch boundary. Returns whether the epoch was new.
    pub fn warm_leader_schedule(&mut self, epoch: Epoch, leader_schedule: Arc<LeaderSchedule>) -> (warmed:
        bool)
        requires
            old(self)@.well_formed(),
        ensures
            warmed == !old(self)@.schedules.contains_key(epoch),
            final(self)@ == old(self)@.warmed(epoch, leader_schedule),
            final(self)@.well_formed(),
            warmed ==> final(self)@.schedules.dom().len() <= final(self)@.max_schedules,
    {
        if self.cached_schedules.0.contains_key(&epoch) {
            return false;
        }
        let max_schedules = self.max_schedules();
        self.cached_schedules.0.insert(epoch, leader_schedule);
        self.cached_schedules.1.push_back(epoch);
        proof {
            let before = old(self)@.order;
            let after = self@.order;
            assert forall|e: Epoch| after.contains(e) == (before.contains(e) || e == epoch) by {
                if before.contains(e) {
                    let i = choose|i: int| 0 <= i < before.len() && before[i] == e;
                    assert(after[i] == e);
                }
                assert(after[before.len() as int] == epoch);
            }
            assert forall|e: Epoch| before.contains(e) == old(self)@.schedules.contains_key(e) by {
                assert(before.to_set().contains(e) == before.contains(e));
            }
            assert(after.to_set() =~= self@.schedules.dom());
        }
        Self::retain_latest(
            &mut self.cached_schedules.0,
            &mut self.cached_schedules.1,
            max_schedules,
        );
        // Advance max_epoch if the warmed epoch is higher
        if epoch > self.max_epoch {
            self.max_epoch = epoch;
        }
        true
    }

    /// Drops the least recently used schedules until no more than `max_schedules` are left.
    fn retain_latest(
        schedules: &mut HashMap<Epoch, Arc<LeaderSchedule>>,
        order: &mut VecDeque<u64>,
        max_schedules: usize,
    )
        requires
            old(order)@.no_duplicates(),
            old(order)@.to_set() == old(schedules)@.dom(),
        ensures
            final(order)@ == CacheView::latest(old(order)@, max_schedules as int),
            final(schedules)@ == old(schedules)@.restrict(final(order)@.to_set()),
            final(order)@.no_duplicates(),
            final(order)@.to_set() == final(schedules)@.dom(),
            final(schedules)@.dom().len() <= max_schedules,
    {
        proof {
            assert(schedules@.restrict(order@.to_set()) =~= schedules@);
            assert(order@.skip(0) =~= order@);
        }
        let ghost mut dropped: int = 0;
        while schedules.len() > max_schedules
            invariant
                0 <= dropped <= old(order)@.len(),
                old(order)@.no_duplicates(),
                old(order)@.to_set() == old(schedules)@.dom(),
                order@ == old(order)@.skip(dropped),
                order@.no_duplicates(),
                order@.to_set() == schedules@.dom(),
                schedules@ == old(schedules)@.restrict(order@.to_set()),
                dropped == 0 || order@.len() >= max_schedules,
            decreases schedules@.dom().len(),
        {
            proof {
                order@.unique_seq_to_set();
            }
            let ghost listed = order@;
            let ghost held = schedules@;
            if let Some(first) = order.pop_front() {
                schedules.remove(&first);
                proof {
                    dropped = dropped + 1;
                    assert(order@ =~= old(order)@.skip(dropped));
                    assert forall|e: Epoch| order@.contains(e) == (listed.contains(e) && e
                        != first) by {
                        if listed.contains(e) && e != first {
                            let i = choose|i: int| 0 <= i < listed.len() && listed[i] == e;
                            assert(order@[i - 1] == e);
                        }
                        if order@.contains(e) {
                            let i = choose|i: int| 0 <= i < order@.len() && order@[i] == e;
                            assert(listed[i + 1] == e);
                        }
                    }
                    assert(order@.to_set() =~= listed.to_set().remove(first));
                    assert(schedules@ =~= held.remove(first));
                    assert(listed.to_set().contains(first));
                    assert(order@.to_set() =~= schedules@.dom());
                    assert(schedules@ =~= old(schedules)@.restrict(order@.to_set()));
                }
            }
        }
        proof {
            order@.unique_seq_to_set();
            if dropped == 0 {
                old(order)@.unique_seq_to_set();
            }
            assert(order@ =~= CacheView::latest(old(order)@, max_schedules as int));
        }
    }

    /// The leader of `slot`; nothing where epochs have no slots. Looks up the slot's epoch.
    pub fn slot_leader_at(&mut self, slot: Slot) -> (leader: Option<SlotLeader>)
        requires
            old(self)@.well_formed(),
            old(self)@.epoch_schedule.slots_per_epoch != 0 ==> old(self)@.can_look_up(slot as int),
        ensures
            leader == (if old(self)@.epoch_schedule.slots_per_epoch == 0 {
                None
            } else {
                old(self)@.leader_of(slot as int)
            }),
            final(self)@ == (if old(self)@.epoch_schedule.slots_per_epoch == 0 {
                old(self)@
            } else {
                old(self)@.used(old(self)@.epoch_schedule.epoch_of(slot as int) as Epoch)
            }),
            final(self)@.well_formed(),
    {
        if self.epoch_schedule.slots_per_epoch == 0 {
            return None;
        }
        self.slot_leader_at_no_compute(slot)
    }

    /// The leader of `slot` by the schedules at hand. Looks up the slot's epoch.
    pub fn slot_leader_at_no_compute(&mut self, slot: Slot) -> (leader: Option<SlotLeader>)
        requires
            old(self)@.well_formed(),
            old(self)@.can_look_up(slot as int),
        ensures
            leader == old(self)@.leader_of(slot as int),
            final(self)@ == old(self)@.used(
                old(self)@.epoch_schedule.epoch_of(slot as int) as Epoch,
            ),
            final(self)@.well_formed(),
    {
        let (epoch, slot_index) = self.epoch_schedule.get_epoch_and_slot_index(slot);
        match self.get_epoch_leader_schedule(epoch) {
            Some(schedule) => Some(leader_at(&schedule, slot_index)),
            None => None,
        }
    }

    /// The leader of `slot`, unless its epoch is not confirmed yet. Looks up the epoch of a
    /// confirmed slot.
    pub fn slot_leader_at_with_epoch_guard(&mut self, slot: Slot) -> (leader: Option<SlotLeader>)
        requires
            old(self)@.well_formed(),
            old(self)@.epoch_schedule.covers(slot as int),
            old(self)@.confirms(slot as int) ==> old(self)@.can_look_up(slot as int),
        ensures
            leader == (if old(self)@.confirms(slot as int) {
                old(self)@.leader_of(slot as int)
            } else {
                None
            }),
            final(self)@ == (if old(self)@.confirms(slot as int) {
                old(self)@.used(old(self)@.epoch_schedule.epoch_of(slot as int) as Epoch)
            } else {
                old(self)@
            }),
            final(self)@.well_formed(),
    {
        if !self.is_confirmed(slot) {
            return None;
        }
        self.slot_leader_at_no_compute(slot)
    }

    /// Whether the epoch of `slot` is confirmed or warmed.
    pub fn is_confirmed(&self, slot: Slot) -> (confirmed: bool)
        requires
            self@.epoch_schedule.covers(slot as int),
        ensures
            confirmed == self@.confirms(slot as int),
    {
        let bank_epoch = self.epoch_schedule.get_epoch_and_slot_index(slot).0;
        bank_epoch <= self.max_epoch
    }

    /// Whether the leader of `slot` can be looked up.
    pub fn is_answerable(&self, slot: Slot) -> (answerable: bool)
        ensures
            answerable == self@.can_look_up(slot as int),
    {
        if !self.epoch_schedule.has_position(slot) {
            return false;
        }
        let (epoch, _slot_index) = self.epoch_schedule.get_epoch_and_slot_index(slot);
        match self.peek(epoch) {
            Some(schedule) => num_slots(&schedule) > 0,
            None => true,
        }
    }

    /// The least index below `bound`, from `index` on, that `leader` leads by `schedule`, which
    /// starts over after its last slot.
    fn next_led_below(schedule: &LeaderSchedule, leader: &Pubkey, index: u64, bound: u64) -> (found:
        Option<u64>)
        requires
            bound <= usize::MAX,
            crate::leader_schedule::schedule_slots(*schedule).len() <= usize::MAX / 2,
        ensures
            match found {
                Some(led) => {
                    &&& index <= led < bound
                    &&& crate::leader_schedule::leads(*schedule, *leader, led as int)
                    &&& forall|i: int|
                        index <= i < led ==> !crate::leader_schedule::leads(*schedule, *leader, i)
                },
                None => forall|i: int|
                    index <= i < bound ==> !crate::leader_schedule::leads(*schedule, *leader, i),
            },
    {
        let count: usize = num_slots(schedule);
        if count == 0 || index >= bound {
            return None;
        }
        let start: usize = index as usize;
        let offset: usize = start % count;
        let ghost rounds = start as int / count as int;
        proof {
            vstd::arithmetic::div_mod::lemma_fundamental_div_mod(start as int, count as int);
            vstd::arithmetic::div_mod::lemma_mod_decreases(start as nat, count as nat);
        }
        let base: usize = start - offset;
        let led = next_led_index(schedule, leader, offset);
        proof {
            assert forall|i: int|
                index <= i < bound && (match led {
                    Some(found) => i < base + found,
                    None => true,
                }) implies !crate::leader_schedule::leads(*schedule, *leader, i) by {
                lemma_leads_starts_over(*schedule, *leader, rounds, i - base);
            }
            if let Some(found) = led {
                lemma_leads_starts_over(*schedule, *leader, rounds, found as int);
            }
        }
        match led {
            Some(found) => if found as u64 >= bound - base as u64 {
                None
            } else {
                Some(base as u64 + found as u64)
            },
            None => None,
        }
    }

    /// The first of the slots that `leader` leads from index `from` of `epoch` on: the epoch, its
    /// first slot, and the index of the led slot in it.
    fn next_upcoming(&self, leader: &Pubkey, epoch: Epoch, from: u64) -> (found: Option<
        (Epoch, Slot, u64),
    >)
        requires
            self@.search_fits(epoch as int),
        ensures
            match found {
                Some((found_epoch, first_slot, index)) => {
                    &&& index < u64::MAX
                    &&& self@.upcoming(*leader, epoch as int, from as int) == seq![
                        first_slot + index,
                    ] + self@.upcoming(*leader, found_epoch as int, index + 1)
                    &&& self@.search_fits(found_epoch as int)
                },
                None => self@.upcoming(*leader, epoch as int, from as int).len() == 0,
            },
    {
        let mut at: Epoch = epoch;
        let mut index: u64 = from;
        while at <= self.max_epoch
            invariant
                self@.search_fits(at as int),
                self@.upcoming(*leader, epoch as int, from as int) == self@.upcoming(
                    *leader,
                    at as int,
                    index as int,
                ),
            decreases self.max_epoch - at,
        {
            let schedule = match self.peek(at) {
                Some(schedule) => schedule,
                None => {
                    return None;
                },
            };
            assert(self@.reaches(at as int, at as int));
            assert(self@.fits(at as int));
            let slots_in_epoch = self.epoch_schedule.get_slots_in_epoch(at);
            let first_slot = self.epoch_schedule.get_first_slot_in_epoch(at);
            let ghost held = self@.schedule_for(at as int)->0;
            let ghost rest = self@.upcoming(*leader, at + 1, 0);
            if let Some(i) = Self::next_led_below(&schedule, leader, index, slots_in_epoch) {
                proof {
                    lemma_led_slots_skip(
                        held,
                        *leader,
                        index as int,
                        i as int,
                        slots_in_epoch as int,
                        first_slot as int,
                    );
                    assert(self@.upcoming(*leader, at as int, index as int) =~= seq![
                        first_slot + i,
                    ] + self@.upcoming(*leader, at as int, i + 1));
                }
                return Some((at, first_slot, i));
            }
            proof {
                if index < slots_in_epoch {
                    lemma_led_slots_skip(
                        held,
                        *leader,
                        index as int,
                        slots_in_epoch as int,
                        slots_in_epoch as int,
                        first_slot as int,
                    );
                }
                assert(self@.upcoming(*leader, at as int, index as int) =~= rest);
            }
            if at == self.max_epoch {
                return None;
            }
            proof {
                assert forall|e: int|
                    at + 1 <= e <= self@.max_epoch && #[trigger] self@.reaches(
                        at + 1,
                        e,
                    ) implies self@.fits(e) by {
                    assert(self@.reaches(at as int, e));
                }
            }
            at = at + 1;
            index = 0;
        }
        None
    }

    /// Whether the schedules that a search from `epoch` on comes to fit.
    fn reached_schedules_fit(&self, epoch: Epoch) -> (fits: bool)
        ensures
            fits == self@.search_fits(epoch as int),
    {
        let mut at: Epoch = epoch;
        while at <= self.max_epoch
            invariant
                epoch <= at,
                forall|e: int|
                    epoch <= e < at ==> (#[trigger] self@.schedule_for(e)) is Some && self@.fits(e),
            decreases self.max_epoch - at,
        {
            let schedule = match self.peek(at) {
                Some(schedule) => schedule,
                None => {
                    assert forall|e: int|
                        epoch <= e <= self@.max_epoch && #[trigger] self@.reaches(
                            epoch as int,
                            e,
                        ) implies self@.fits(e) by {
                        assert(self@.schedule_for(at as int) is None);
                    }
                    return true;
                },
            };
            let slots_in_epoch = self.epoch_schedule.get_slots_in_epoch(at);
            if slots_in_epoch > usize::MAX as u64 || num_slots(&schedule) > usize::MAX / 2 {
                assert(self@.reaches(epoch as int, at as int));
                return false;
            }
            if at == self.max_epoch {
                return true;
            }
            if self.fixed_schedule.is_some() && usize::MAX as u64 == u64::MAX {
                assert forall|e: int|
                    epoch <= e <= self@.max_epoch && #[trigger] self@.reaches(
                        epoch as int,
                        e,
                    ) implies self@.fits(e) by {
                    crate::epoch_schedule::lemma_slots_in_is_u64(self.epoch_schedule, e);
                    assert(self@.schedule_for(e) == self@.schedule_for(at as int));
                }
                return true;
            }
            at = at + 1;
        }
        true
    }

    /// What [`LeaderScheduleCache::checked_next_leader_slot`] finds.
    fn find_led(&self, pubkey: &Pubkey, current_slot: Slot, max_slot_range: u64) -> (answer: Option<
        Option<(Slot, Slot)>,
    >)
        ensures
            answer is Some == self@.can_search(*pubkey, current_slot as int),
            answer matches Some(found) ==> self@.finds(
                *pubkey,
                current_slot as int,
                max_slot_range as int,
                found,
            ),
    {
        if current_slot == u64::MAX || !self.epoch_schedule.has_position(current_slot + 1) {
            return None;
        }
        let (epoch, start_index) = self.epoch_schedule.get_epoch_and_slot_index(current_slot + 1);
        if epoch > self.max_epoch {
            return Some(None);
        }
        if !self.reached_schedules_fit(epoch) {
            return None;
        }
        let ghost slots = self@.upcoming(*pubkey, epoch as int, start_index as int);
        let (first_epoch, epoch_start, first_index) = match self.next_upcoming(
            pubkey,
            epoch,
            start_index,
        ) {
            Some(found) => found,
            None => {
                return Some(None);
            },
        };
        assert(slots[0] == epoch_start + first_index);
        let first_slot = match epoch_start.checked_add(first_index) {
            Some(first_slot) => first_slot,
            None => {
                return None;
            },
        };
        let max_slot = first_slot.saturating_add(max_slot_range);
        let mut last_slot: Slot = first_slot;
        let mut at: Epoch = first_epoch;
        let mut index: u64 = first_index + 1;
        let ghost mut run: Seq<int> = seq![first_slot as int];
        let mut more: bool = true;
        while more
            invariant
                self@.search_fits(at as int),
                1 <= run.len() <= slots.len(),
                forall|i: int| 0 <= i < run.len() ==> run[i] == slots[i],
                run[0] == first_slot,
                run.last() == last_slot,
                last_slot == first_slot + run.len() - 1,
                forall|i: int|
                    1 <= i < run.len() ==> #[trigger] slots[i] == slots[0] + i && slots[i]
                        < max_slot,
                more ==> slots == run + self@.upcoming(*pubkey, at as int, index as int),
                !more ==> run.len() < slots.len() ==> slots[run.len() as int] != slots[0]
                    + run.len() || slots[run.len() as int] >= max_slot,
            decreases (if more {
                1 + slots.len() - run.len()
            } else {
                0
            }),
        {
            more = false;
            match self.next_upcoming(pubkey, at, index) {
                Some((next_epoch, next_start, next_index)) => {
                    let ghost rest = self@.upcoming(*pubkey, next_epoch as int, next_index + 1);
                    assert(slots[run.len() as int] == next_start + next_index);
                    if let Some(slot) = next_start.checked_add(next_index) {
                        if slot < max_slot && slot > last_slot && slot - last_slot == 1 {
                            proof {
                                assert(slots =~= run.push(slot as int) + rest);
                                run = run.push(slot as int);
                            }
                            last_slot = slot;
                            at = next_epoch;
                            index = next_index + 1;
                            more = true;
                        }
                    }
                },
                None => {
                    assert(slots =~= run);
                },
            }
        }
        proof {
            lemma_run_length(slots, max_slot as int, 1, run.len() as int);
        }
        Some(Some((first_slot, last_slot)))
    }

    /// Finds the upcoming leader slots of `pubkey` after `current_slot`: the first one, and the
    /// last one of the unbroken run that starts there, less than `max_slot_range` slots on. Looks
    /// up the epochs from there on. Nothing comes back, and nothing is looked up, where that
    /// cannot be computed in machine integers.
    pub fn checked_next_leader_slot(
        &mut self,
        pubkey: &Pubkey,
        current_slot: Slot,
        max_slot_range: u64,
    ) -> (answer: Option<Option<(Slot, Slot)>>)
        requires
            old(self)@.well_formed(),
        ensures
            answer is Some == old(self)@.can_search(*pubkey, current_slot as int),
            answer matches Some(found) ==> old(self)@.finds(
                *pubkey,
                current_slot as int,
                max_slot_range as int,
                found,
            ),
            answer matches Some(Some((first_slot, last_slot))) ==> old(self)@.next_led(
                *pubkey,
                current_slot as int,
                max_slot_range as int,
            ) == Some((first_slot as int, last_slot as int)),
            answer matches Some(None) ==> old(self)@.next_led(
                *pubkey,
                current_slot as int,
                max_slot_range as int,
            ) is None,
            final(self)@ == (if answer is Some {
                old(self)@.after_search(current_slot as int)
            } else {
                old(self)@
            }),
            final(self)@.well_formed(),
    {
        let answer = self.find_led(pubkey, current_slot, max_slot_range);
        if answer.is_some() {
            let (epoch, _index) = self.epoch_schedule.get_epoch_and_slot_index(current_slot + 1);
            self.mark_reached_used(epoch);
        }
        answer
    }

    /// Makes the epochs that a search from `epoch` on comes to the most recently used, one after
    /// the other.
    fn mark_reached_used(&mut self, epoch: Epoch)
        requires
            old(self)@.well_formed(),
        ensures
            final(self)@ == old(self)@.used_through(
                epoch as int,
                old(self)@.reach(epoch as int),
            ),
            final(self)@.well_formed(),
    {
        let ghost before = self@;
        proof {
            lemma_used_through(before, epoch as int, before.reach(epoch as int));
        }
        if self.fixed_schedule.is_some() {
            return;
        }
        let mut at: Epoch = epoch;
        while at <= self.max_epoch && self.has_epoch(at)
            invariant
                before == old(self)@,
                before.well_formed(),
                before.fixed_schedule is None,
                epoch <= at,
                self@ == before.used_through(epoch as int, at as int),
                self@.well_formed(),
                self@ == (CacheView { order: self@.order, ..before }),
                before.reach(epoch as int) == before.reach(at as int),
            decreases self.max_epoch - at,
        {
            self.mark_used(at);
            proof {
                lemma_used_through(before, epoch as int, at + 1);
                assert(before.reach(at as int) == before.reach(at + 1));
            }
            if at == self.max_epoch {
                assert(before.reach(at + 1) == at + 1);
                return;
            }
            at = at + 1;
        }
        assert(before.reach(at as int) == at);
    }

    /// Finds the upcoming leader slots of `pubkey` after `current_slot`: the first one, and the
    /// last one of the unbroken run that starts there, less than `max_slot_range` slots on. Looks
    /// up the epochs from there on.
    pub fn next_leader_slot(
        &mut self,
        pubkey: &Pubkey,
        current_slot: Slot,
        max_slot_range: u64,
    ) -> (found: Option<(Slot, Slot)>)
        requires
            old(self)@.well_formed(),
            old(self)@.can_search(*pubkey, current_slot as int),
        ensures
            old(self)@.finds(*pubkey, current_slot as int, max_slot_range as int, found),
            match found {
                Some((first_slot, last_slot)) => old(self)@.next_led(
                    *pubkey,
                    current_slot as int,
                    max_slot_range as int,
                ) == Some((first_slot as int, last_slot as int)),
                None => old(self)@.next_led(
                    *pubkey,
                    current_slot as int,
                    max_slot_range as int,
                ) is None,
            },
            final(self)@ == old(self)@.after_search(current_slot as int),
            final(self)@.well_formed(),
    {
        self.checked_next_leader_slot(pubkey, current_slot, max_slot_range).unwrap()
    }
}

} // verus!
