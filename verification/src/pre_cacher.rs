//! Warms the cache with the schedule of the next epoch before that epoch starts.
//!
//! [`LeaderSchedulePreCacher`] holds the state and makes the decisions. It does not run anything
//! in the background itself: an epoch whose schedule is to be computed is put in a queue
//! ([`LeaderSchedulePreCacher::take_dispatched`]), whoever takes it from there calls
//! [`compute_leader_schedule`] off the critical path and hands the outcome back
//! ([`LeaderSchedulePreCacher::complete_pre_cache_task`]).

use crate::decimal::append_decimal;
use crate::epoch_schedule::EpochSchedule;
use crate::leader_schedule::{
    consecutive_leader_slots, draw_schedule, is_drawable, SlotLeader,
};
use crate::leader_schedule_cache::{CacheView, LeaderScheduleCache};
use solana_clock::{Epoch, Slot};
use solana_leader_schedule::LeaderSchedule;
use solana_pubkey::Pubkey;
use solana_vote::vote_account::{VoteAccount, VoteAccountsHashMap};
use std::collections::HashSet;
use std::sync::Arc;
use vstd::prelude::*;
use vstd::string::*;

verus! {

broadcast use vstd::std_specs::hash::group_hash_axioms;

/// Default lookahead window: 100 slots before the epoch boundary.
/// This matches the fanout of TPU clients, so that the schedule of the upcoming epoch is there as
/// soon as they begin to look ahead to it.
pub const DEFAULT_WARMUP_SLOTS_BEFORE_BOUNDARY: u64 = 100;

/// How long to wait between two looks at the cache, in milliseconds.
pub const POLL_INTERVAL_MS: u64 = 5;

/// Why an epoch was not warmed.
#[derive(Debug, Clone, Copy, PartialEq, Eq, Structural)]
pub enum PreCacherError {
    MissingStakeData(Epoch),
    CalculationFailed(Epoch),
    Timeout(Epoch),
}

impl PreCacherError {
    /// What [`PreCacherError::message`] shows.
    pub open spec fn text(self) -> Seq<char> {
        match self {
            PreCacherError::MissingStakeData(epoch) => "Stake data missing for epoch "@
                + crate::decimal::decimal(epoch as nat),
            PreCacherError::CalculationFailed(epoch) => {
                "Leader schedule calculation failed for epoch "@ + crate::decimal::decimal(
                    epoch as nat,
                )
            },
            PreCacherError::Timeout(epoch) => "Epoch "@ + crate::decimal::decimal(epoch as nat)
                + " calculation timed out"@,
        }
    }

    /// The error as a line of text.
    pub fn message(&self) -> (text: String)
        ensures
            text@ == self.text(),
    {
        match self {
            PreCacherError::MissingStakeData(epoch) => {
                let mut text = String::from_str("Stake data missing for epoch ");
                append_decimal(&mut text, *epoch);
                text
            },
            PreCacherError::CalculationFailed(epoch) => {
                let mut text = String::from_str("Leader schedule calculation failed for epoch ");
                append_decimal(&mut text, *epoch);
                text
            },
            PreCacherError::Timeout(epoch) => {
                let mut text = String::from_str("Epoch ");
                append_decimal(&mut text, *epoch);
                text.append(" calculation timed out");
                text
            },
        }
    }
}

/// Provider abstraction for epoch vote accounts and stakes.
pub trait StakeDataProvider: Send + Sync {
    /// Retrieves vote accounts map for the given epoch.
    fn get_epoch_vote_accounts(&self, epoch: Epoch) -> Option<VoteAccountsHashMap>;
}

/// Configuration for the pre-cacher.
#[derive(Debug, Clone, Copy, PartialEq, Eq, Structural)]
pub struct PreCacherConfig {
    /// Number of slots before the epoch boundary to trigger pre-caching (default: 100).
    pub warmup_slots_before_boundary: u64,
    /// Maximum concurrent pre-caching tasks (default: 4).
    pub max_concurrent_tasks: usize,
}

impl Default for PreCacherConfig {
    fn default() -> (config: Self)
        ensures
            config.warmup_slots_before_boundary == DEFAULT_WARMUP_SLOTS_BEFORE_BOUNDARY,
            config.warmup_slots_before_boundary == 100,
            config.max_concurrent_tasks == 4,
    {
        Self {
            warmup_slots_before_boundary: DEFAULT_WARMUP_SLOTS_BEFORE_BOUNDARY,
            max_concurrent_tasks: 4,
        }
    }
}

/// What the pre-cacher counts. A counter starts over from zero after the largest `u64`.
#[derive(Debug, Clone, Copy, PartialEq, Eq, Structural)]
pub struct PreCacherStats {
    /// Background computations that were put in the queue.
    pub triggered_count: u64,
    /// Schedules that were computed and offered to the cache.
    pub warmed_count: u64,
    /// Slots that asked for an epoch whose computation is queued or running.
    pub deduplicated_count: u64,
    /// Requests for an epoch that is cached already.
    pub already_cached_count: u64,
    /// Background computations that found no vote accounts.
    pub missing_stakes_count: u64,
    /// The time that successful background computations took, in microseconds.
    pub total_compute_duration_us: u64,
}

impl PreCacherStats {
    /// Nothing counted yet.
    pub open spec fn zero() -> PreCacherStats {
        PreCacherStats {
            triggered_count: 0,
            warmed_count: 0,
            deduplicated_count: 0,
            already_cached_count: 0,
            missing_stakes_count: 0,
            total_compute_duration_us: 0,
        }
    }
}

impl Default for PreCacherStats {
    fn default() -> (stats: Self)
        ensures
            stats == PreCacherStats::zero(),
    {
        PreCacherStats {
            triggered_count: 0,
            warmed_count: 0,
            deduplicated_count: 0,
            already_cached_count: 0,
            missing_stakes_count: 0,
            total_compute_duration_us: 0,
        }
    }
}

/// What came of computing the schedule of an epoch.
#[derive(Debug)]
pub enum ScheduleOutcome {
    /// The schedule.
    Computed(Arc<LeaderSchedule>),
    /// There are no vote accounts for the epoch.
    MissingStakes,
    /// No schedule can be drawn from the vote accounts, or the computation broke off.
    Failed,
}

impl ScheduleOutcome {
    /// Whether `slots` are the `len` slots drawn for `epoch`, four in a row for each choice of an
    /// account with stake.
    pub open spec fn is_drawn(
        slots: Seq<SlotLeader>,
        accounts: Map<Pubkey, (u64, VoteAccount)>,
        epoch: Epoch,
        len: int,
    ) -> bool {
        &&& slots == crate::leader_schedule::drawn_slots(accounts, epoch, len as nat, 4)
        &&& slots.len() == len
        &&& crate::leader_schedule::repeats_choices(slots, 4)
        &&& crate::leader_schedule::chooses_by_stake(slots, accounts)
    }

    /// Whether this is what comes of the vote accounts that a provider `answer`ed with, for an
    /// epoch of `len` slots: a schedule for as many of them as whole turns of leaders cover.
    pub open spec fn comes_of(
        self,
        answer: Option<VoteAccountsHashMap>,
        epoch: Epoch,
        len: int,
    ) -> bool {
        match answer {
            Some(accounts) => if crate::leader_schedule::can_be_drawn(accounts@, len, 4) {
                self matches ScheduleOutcome::Computed(schedule) && Self::is_drawn(
                    crate::leader_schedule::schedule_slots(*schedule),
                    accounts@,
                    epoch,
                    crate::leader_schedule::whole_turns(len, 4),
                )
            } else {
                self is Failed
            },
            None => self is MissingStakes,
        }
    }
}

/// What to do while waiting for an epoch.
#[derive(Debug, Clone, Copy, PartialEq, Eq, Structural)]
pub enum WaitStep {
    /// The wait is over, and whether the epoch is in the cache.
    Done(bool),
    /// Look again after [`POLL_INTERVAL_MS`].
    Sleep,
}

/// The state of a pre-cacher.
#[verifier::ext_equal]
pub struct PreCacherView {
    pub cache: CacheView,
    pub config: PreCacherConfig,
    /// The epochs whose schedule is to be or is being computed in the background.
    pub inflight: Set<Epoch>,
    pub stats: PreCacherStats,
    /// The epochs whose computation is still to be started.
    pub dispatched: Seq<Epoch>,
    /// How many computations were started and have not ended.
    pub running: usize,
}

impl PreCacherView {
    /// The epoch to warm at `slot`, if the slot lies in the warm-up window: the next epoch, from
    /// `warmup_slots_before_boundary` slots before the last slot of the current one.
    pub open spec fn target(self, slot: int) -> Option<Epoch> {
        let epoch = self.cache.epoch_schedule.epoch_of(slot);
        let last_slot = self.cache.epoch_schedule.last_slot_in(epoch);
        if slot >= last_slot - self.config.warmup_slots_before_boundary {
            Some(EpochSchedule::capped(epoch + 1) as Epoch)
        } else {
            None
        }
    }

    /// The epoch to warm at `slot`, if the slot lies in the warm-up window and the epoch is not
    /// cached.
    pub open spec fn warming_due(self, slot: int) -> Option<Epoch> {
        match self.target(slot) {
            Some(epoch) => if self.cache.schedules.contains_key(epoch) {
                None
            } else {
                Some(epoch)
            },
            None => None,
        }
    }

    /// Whether `slot` has a computation queued.
    pub open spec fn triggers(self, slot: int) -> bool {
        self.warming_due(slot) matches Some(epoch) && !self.inflight.contains(epoch)
    }

    /// The state after the computation for `epoch` was put in the queue.
    pub open spec fn with_dispatched(self, epoch: Epoch) -> PreCacherView {
        PreCacherView {
            stats: PreCacherStats {
                triggered_count: self.stats.triggered_count.wrapping_add(1),
                ..self.stats
            },
            dispatched: self.dispatched.push(epoch),
            ..self
        }
    }

    /// The state after a request for an epoch that is cached.
    pub open spec fn with_already_cached(self) -> PreCacherView {
        PreCacherView {
            stats: PreCacherStats {
                already_cached_count: self.stats.already_cached_count.wrapping_add(1),
                ..self.stats
            },
            ..self
        }
    }

    /// The state after `slot` was processed. In the warm-up window exactly one of three things
    /// happens: the next epoch is cached, its computation is in flight, or it is put in the queue.
    pub open spec fn after_slot(self, slot: int) -> PreCacherView {
        match self.target(slot) {
            Some(epoch) => if self.cache.schedules.contains_key(epoch) {
                self.with_already_cached()
            } else if self.inflight.contains(epoch) {
                PreCacherView {
                    stats: PreCacherStats {
                        deduplicated_count: self.stats.deduplicated_count.wrapping_add(1),
                        ..self.stats
                    },
                    ..self
                }
            } else {
                (PreCacherView { inflight: self.inflight.insert(epoch), ..self }).with_dispatched(
                    epoch,
                )
            },
            None => self,
        }
    }

    /// How many of the queued epochs can be started: no more than `max_concurrent_tasks`
    /// computations run at a time.
    pub open spec fn startable(self) -> int {
        if self.running >= self.config.max_concurrent_tasks {
            0
        } else if self.dispatched.len() <= self.config.max_concurrent_tasks - self.running {
            self.dispatched.len() as int
        } else {
            self.config.max_concurrent_tasks - self.running
        }
    }

    /// The state after the epochs that can be started were taken from the queue.
    pub open spec fn after_take(self) -> PreCacherView {
        PreCacherView {
            dispatched: self.dispatched.skip(self.startable()),
            running: (self.running + self.startable()) as usize,
            ..self
        }
    }

    /// The state after `schedule` was offered to the cache for `epoch`.
    pub open spec fn with_warmed(self, epoch: Epoch, schedule: Arc<LeaderSchedule>) -> PreCacherView {
        PreCacherView {
            cache: self.cache.warmed(epoch, schedule),
            stats: PreCacherStats {
                warmed_count: self.stats.warmed_count.wrapping_add(1),
                ..self.stats
            },
            ..self
        }
    }

    /// The state after the background computation for `epoch` came to its `outcome`: the epoch
    /// is no longer in flight, whatever the outcome.
    pub open spec fn after_task(
        self,
        epoch: Epoch,
        outcome: ScheduleOutcome,
        elapsed_us: u64,
    ) -> PreCacherView {
        let ended = PreCacherView {
            inflight: self.inflight.remove(epoch),
            running: if self.running > 0 {
                (self.running - 1) as usize
            } else {
                0
            },
            ..self
        };
        match outcome {
            ScheduleOutcome::Computed(schedule) => (PreCacherView {
                stats: PreCacherStats {
                    total_compute_duration_us: ended.stats.total_compute_duration_us.wrapping_add(
                        elapsed_us,
                    ),
                    ..ended.stats
                },
                ..ended
            }).with_warmed(epoch, schedule),
            ScheduleOutcome::MissingStakes => PreCacherView {
                stats: PreCacherStats {
                    missing_stakes_count: ended.stats.missing_stakes_count.wrapping_add(1),
                    ..ended.stats
                },
                ..ended
            },
            ScheduleOutcome::Failed => ended,
        }
    }

    /// The state after `epoch` was warmed in the foreground with that `outcome`.
    pub open spec fn after_sync(self, epoch: Epoch, outcome: ScheduleOutcome) -> PreCacherView {
        match outcome {
            ScheduleOutcome::Computed(schedule) => self.with_warmed(epoch, schedule),
            _ => self,
        }
    }

    /// What warming `epoch` in the foreground returns for that `outcome`.
    pub open spec fn sync_result(epoch: Epoch, outcome: ScheduleOutcome) -> Result<
        (),
        PreCacherError,
    > {
        match outcome {
            ScheduleOutcome::Computed(_) => Ok(()),
            ScheduleOutcome::MissingStakes => Err(PreCacherError::MissingStakeData(epoch)),
            ScheduleOutcome::Failed => Err(PreCacherError::CalculationFailed(epoch)),
        }
    }

    /// Whether warming `epoch` in the foreground, with that `answer` of a provider and that
    /// `outcome` of the computation, returns `result` and leads to the state `after`.
    pub open spec fn syncs(
        self,
        epoch: Epoch,
        answer: Option<VoteAccountsHashMap>,
        outcome: ScheduleOutcome,
        result: Result<(), PreCacherError>,
        after: PreCacherView,
    ) -> bool {
        &&& outcome.comes_of(
            answer,
            epoch,
            self.cache.epoch_schedule.length_of(epoch as int),
        )
        &&& result == Self::sync_result(epoch, outcome)
        &&& after == self.after_sync(epoch, outcome)
    }

    /// What to do next while waiting for `epoch`.
    pub open spec fn wait_step(self, epoch: Epoch, before_deadline: bool) -> WaitStep {
        if self.cache.schedules.contains_key(epoch) {
            WaitStep::Done(true)
        } else if before_deadline {
            WaitStep::Sleep
        } else {
            WaitStep::Done(false)
        }
    }
}

/// Computes the schedule of an epoch of `slots_in_epoch` slots from the vote accounts that a
/// provider answered with. A leader gets a number of slots in a row; where the slots of the epoch
/// are no multiple of that, the schedule leaves out the last ones. No schedule is drawn where the
/// accounts hold no stake, or more than a `u64` counts.
pub fn leader_schedule_from_answer(
    answer: Option<VoteAccountsHashMap>,
    epoch: Epoch,
    slots_in_epoch: u64,
) -> (outcome: ScheduleOutcome)
    ensures
        outcome.comes_of(answer, epoch, (slots_in_epoch as usize) as int),
{
    match answer {
        Some(vote_accounts) => {
            let len: usize = slots_in_epoch as usize;
            let repeat: usize = consecutive_leader_slots();
            if is_drawable(&vote_accounts, len, repeat) {
                let whole: usize = len - len % repeat;
                proof {
                    crate::leader_schedule::lemma_whole_turns(len as int, repeat as int);
                }
                let schedule = draw_schedule(&vote_accounts, epoch, whole, repeat);
                ScheduleOutcome::Computed(Arc::new(schedule))
            } else {
                ScheduleOutcome::Failed
            }
        },
        None => ScheduleOutcome::MissingStakes,
    }
}

/// Computes the schedule of `epoch` from the vote accounts that the provider has for it.
pub fn compute_leader_schedule<P: StakeDataProvider + ?Sized>(
    stake_provider: &P,
    epoch_schedule: &EpochSchedule,
    epoch: Epoch,
) -> (outcome: ScheduleOutcome)
    ensures
        exists|answer: Option<VoteAccountsHashMap>| #[trigger]
            call_ensures(P::get_epoch_vote_accounts, (stake_provider, epoch), answer)
                && outcome.comes_of(
                answer,
                epoch,
                epoch_schedule.length_of(epoch as int),
            ),
{
    let answer = stake_provider.get_epoch_vote_accounts(epoch);
    let slots_in_epoch = epoch_schedule.get_slots_in_epoch(epoch);
    leader_schedule_from_answer(answer, epoch, slots_in_epoch)
}

/// Epoch-boundary leader schedule pre-cacher.
///
/// Monitors slot progression and has the schedule of the next epoch computed ahead of the epoch
/// boundary, so that requests for its slot leaders find it in the cache.
pub struct LeaderSchedulePreCacher<P: StakeDataProvider + ?Sized> {
    cache: LeaderScheduleCache,
    stake_provider: Arc<P>,
    config: PreCacherConfig,
    inflight_epochs: HashSet<Epoch>,
    stats: PreCacherStats,
    dispatched: Vec<Epoch>,
    running: usize,
}

impl<P: StakeDataProvider + ?Sized> View for LeaderSchedulePreCacher<P> {
    type V = PreCacherView;

    closed spec fn view(&self) -> PreCacherView {
        PreCacherView {
            cache: self.cache@,
            config: self.config,
            inflight: self.inflight_epochs@,
            stats: self.stats,
            dispatched: self.dispatched@,
            running: self.running,
        }
    }
}

impl<P: StakeDataProvider + ?Sized> LeaderSchedulePreCacher<P> {
    /// The provider of vote accounts.
    pub closed spec fn provider(&self) -> &P {
        &*self.stake_provider
    }

    pub fn new(
        cache: LeaderScheduleCache,
        stake_provider: Arc<P>,
        config: PreCacherConfig,
    ) -> (pre_cacher: Self)
        ensures
            pre_cacher@ == (PreCacherView {
                cache: cache@,
                config,
                inflight: Set::empty(),
                stats: PreCacherStats::zero(),
                dispatched: Seq::empty(),
                running: 0,
            }),
            pre_cacher.provider() == &*stake_provider,
    {
        Self {
            cache,
            stake_provider,
            config,
            inflight_epochs: HashSet::new(),
            stats: PreCacherStats::default(),
            dispatched: Vec::new(),
            running: 0,
        }
    }

    pub fn stats(&self) -> (stats: &PreCacherStats)
        ensures
            *stats == self@.stats,
    {
        &self.stats
    }

    pub fn config(&self) -> (config: &PreCacherConfig)
        ensures
            *config == self@.config,
    {
        &self.config
    }

    /// The cache that is kept warm.
    pub fn cache(&self) -> (cache: &LeaderScheduleCache)
        ensures
            cache@ == self@.cache,
    {
        &self.cache
    }

    /// The cache that is kept warm, to be changed.
    pub fn cache_mut(&mut self) -> (cache: &mut LeaderScheduleCache)
        ensures
            cache@ == old(self)@.cache,
            final(self)@ == (PreCacherView { cache: final(cache)@, ..old(self)@ }),
            final(self).provider() == old(self).provider(),
    {
        &mut self.cache
    }

    /// The provider of vote accounts, to be asked from elsewhere.
    pub fn stake_provider(&self) -> (stake_provider: Arc<P>)
        ensures
            &*stake_provider == self.provider(),
    {
        self.stake_provider.clone()
    }

    /// Evaluates whether the given `current_slot` requires warming the upcoming epoch's schedule.
    /// Returns `Some(target_epoch)` if pre-caching should be initiated.
    pub fn should_warm_epoch(&self, current_slot: Slot) -> (target_epoch: Option<Epoch>)
        requires
            self@.cache.epoch_schedule.covers(current_slot as int),
        ensures
            target_epoch == self@.warming_due(current_slot as int),
    {
        match self.warmup_target(current_slot) {
            Some(next_epoch) => if self.cache.has_epoch(next_epoch) {
                None
            } else {
                Some(next_epoch)
            },
            None => None,
        }
    }

    /// The epoch to warm at `current_slot`, if the slot lies in the warm-up window.
    fn warmup_target(&self, current_slot: Slot) -> (target_epoch: Option<Epoch>)
        requires
            self@.cache.epoch_schedule.covers(current_slot as int),
        ensures
            target_epoch == self@.target(current_slot as int),
    {
        let epoch_schedule = &self.cache.epoch_schedule;
        let (current_epoch, _slot_index) = epoch_schedule.get_epoch_and_slot_index(current_slot);
        let last_slot_in_epoch = epoch_schedule.get_last_slot_in_epoch(current_epoch);
        let threshold_slot = last_slot_in_epoch.saturating_sub(
            self.config.warmup_slots_before_boundary,
        );
        if current_slot < threshold_slot {
            return None;
        }
        Some(current_epoch.saturating_add(1))
    }

    /// Checks if the schedule of an epoch is to be or is being computed in the background.
    pub fn is_inflight(&self, epoch: Epoch) -> (inflight: bool)
        ensures
            inflight == self@.inflight.contains(epoch),
    {
        self.inflight_epochs.contains(&epoch)
    }

    /// Called for each slot that is processed. If the slot lies in the warm-up window and the
    /// next epoch is neither cached nor in flight, its computation is put in the queue. Returns
    /// whether that happened.
    pub fn on_slot_processed(&mut self, current_slot: Slot) -> (triggered: bool)
        requires
            old(self)@.cache.epoch_schedule.covers(current_slot as int),
        ensures
            triggered == old(self)@.triggers(current_slot as int),
            final(self)@ == old(self)@.after_slot(current_slot as int),
            final(self).provider() == old(self).provider(),
    {
        let target_epoch = match self.warmup_target(current_slot) {
            Some(target_epoch) => target_epoch,
            None => {
                return false;
            },
        };
        if self.cache.has_epoch(target_epoch) {
            self.stats.already_cached_count = self.stats.already_cached_count.wrapping_add(1);
            return false;
        }
        if !self.inflight_epochs.insert(target_epoch) {
            self.stats.deduplicated_count = self.stats.deduplicated_count.wrapping_add(1);
            assert(self@.inflight =~= old(self)@.inflight);
            return false;
        }
        self.dispatch_pre_cache_task(target_epoch);
        true
    }

    /// Puts the computation for the target epoch in the queue.
    pub fn dispatch_pre_cache_task(&mut self, target_epoch: Epoch)
        ensures
            final(self)@ == old(self)@.with_dispatched(target_epoch),
            final(self).provider() == old(self).provider(),
    {
        self.stats.triggered_count = self.stats.triggered_count.wrapping_add(1);
        self.dispatched.push(target_epoch);
    }

    /// Takes epochs from the queue whose computation is to be started now: the ones that were put
    /// there first, as many as may run beside those that run already. The others stay in the
    /// queue until a computation ends.
    pub fn take_dispatched(&mut self) -> (epochs: Vec<Epoch>)
        ensures
            epochs@ == old(self)@.dispatched.take(old(self)@.startable()),
            final(self)@ == old(self)@.after_take(),
            final(self).provider() == old(self).provider(),
    {
        let mut room: usize = 0;
        if self.running < self.config.max_concurrent_tasks {
            room = self.config.max_concurrent_tasks - self.running;
        }
        if room > self.dispatched.len() {
            room = self.dispatched.len();
        }
        let mut epochs = self.dispatched.split_off(room);
        std::mem::swap(&mut epochs, &mut self.dispatched);
        self.running = self.running + room;
        epochs
    }

    /// Takes note of what came of a background computation and of the time that it took. The
    /// epoch is no longer in flight, regardless of the outcome.
    pub fn complete_pre_cache_task(
        &mut self,
        target_epoch: Epoch,
        outcome: ScheduleOutcome,
        elapsed_us: u64,
    )
        requires
            old(self)@.cache.well_formed(),
        ensures
            final(self)@ == old(self)@.after_task(target_epoch, outcome, elapsed_us),
            final(self)@.cache.well_formed(),
            final(self).provider() == old(self).provider(),
    {
        if self.running > 0 {
            self.running = self.running - 1;
        }
        self.inflight_epochs.remove(&target_epoch);
        assert(self@.inflight =~= old(self)@.inflight.remove(target_epoch));
        match outcome {
            ScheduleOutcome::Computed(leader_schedule) => {
                self.stats.total_compute_duration_us =
                    self.stats.total_compute_duration_us.wrapping_add(elapsed_us);
                self.cache.warm_leader_schedule(target_epoch, leader_schedule);
                self.stats.warmed_count = self.stats.warmed_count.wrapping_add(1);
            },
            ScheduleOutcome::MissingStakes => {
                self.stats.missing_stakes_count = self.stats.missing_stakes_count.wrapping_add(1);
            },
            ScheduleOutcome::Failed => {},
        }
    }

    /// Warms an epoch in the foreground.
    pub fn warm_epoch_sync(&mut self, target_epoch: Epoch) -> (result: Result<(), PreCacherError>)
        requires
            old(self)@.cache.well_formed(),
        ensures
            final(self)@.cache.well_formed(),
            final(self).provider() == old(self).provider(),
            old(self)@.cache.schedules.contains_key(target_epoch) ==> result == Ok::<
                (),
                PreCacherError,
            >(()) && final(self)@ == old(self)@.with_already_cached(),
            !old(self)@.cache.schedules.contains_key(target_epoch) ==> exists|
                answer: Option<VoteAccountsHashMap>,
                outcome: ScheduleOutcome,
            | #[trigger]
                old(self)@.syncs(target_epoch, answer, outcome, result, final(self)@)
                    && call_ensures(
                    P::get_epoch_vote_accounts,
                    (old(self).provider(), target_epoch),
                    answer,
                ),
    {
        if self.cache.has_epoch(target_epoch) {
            self.stats.already_cached_count = self.stats.already_cached_count.wrapping_add(1);
            return Ok(());
        }
        let answer = self.stake_provider.get_epoch_vote_accounts(target_epoch);
        self.warm_epoch_from_answer(target_epoch, answer)
    }

    /// Warms an epoch with the schedule that comes of the vote accounts that a provider answered
    /// with.
    pub fn warm_epoch_from_answer(
        &mut self,
        target_epoch: Epoch,
        answer: Option<VoteAccountsHashMap>,
    ) -> (result: Result<(), PreCacherError>)
        requires
            old(self)@.cache.well_formed(),
        ensures
            final(self)@.cache.well_formed(),
            final(self).provider() == old(self).provider(),
            exists|outcome: ScheduleOutcome| #[trigger]
                old(self)@.syncs(target_epoch, answer, outcome, result, final(self)@),
    {
        let slots_in_epoch = self.cache.epoch_schedule.get_slots_in_epoch(target_epoch);
        let outcome = leader_schedule_from_answer(answer, target_epoch, slots_in_epoch);
        let ghost came = outcome;
        let result = self.warm_epoch_with_outcome(target_epoch, outcome);
        assert(old(self)@.syncs(target_epoch, answer, came, result, self@));
        result
    }

    /// Warms an epoch with what came of computing its schedule in the foreground.
    pub fn warm_epoch_with_outcome(
        &mut self,
        target_epoch: Epoch,
        outcome: ScheduleOutcome,
    ) -> (result: Result<(), PreCacherError>)
        requires
            old(self)@.cache.well_formed(),
        ensures
            result == PreCacherView::sync_result(target_epoch, outcome),
            final(self)@ == old(self)@.after_sync(target_epoch, outcome),
            final(self)@.cache.well_formed(),
            final(self).provider() == old(self).provider(),
    {
        match outcome {
            ScheduleOutcome::Computed(leader_schedule) => {
                self.cache.warm_leader_schedule(target_epoch, leader_schedule);
                self.stats.warmed_count = self.stats.warmed_count.wrapping_add(1);
                Ok(())
            },
            ScheduleOutcome::MissingStakes => Err(PreCacherError::MissingStakeData(target_epoch)),
            ScheduleOutcome::Failed => Err(PreCacherError::CalculationFailed(target_epoch)),
        }
    }

    /// What to do next while waiting for an epoch to be in the cache, before the deadline or after
    /// it.
    pub fn wait_step(&self, epoch: Epoch, before_deadline: bool) -> (step: WaitStep)
        ensures
            step == self@.wait_step(epoch, before_deadline),
    {
        if self.cache.has_epoch(epoch) {
            WaitStep::Done(true)
        } else if before_deadline {
            WaitStep::Sleep
        } else {
            WaitStep::Done(false)
        }
    }
}

} // verus!
