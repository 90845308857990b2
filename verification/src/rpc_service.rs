//! The `getSlotLeaders` request, answered from the cached schedules.

use crate::decimal::{append_decimal, append_signed_decimal};
use crate::leader_schedule::{num_slots, slot_leaders, SlotLeader};
use crate::leader_schedule_cache::{CacheView, LeaderScheduleCache};
use solana_clock::{Epoch, Slot};
use solana_leader_schedule::LeaderSchedule;
use solana_pubkey::Pubkey;
use vstd::prelude::*;
use vstd::string::*;

verus! {

/// The JSON-RPC code for invalid parameters.
pub const RPC_INVALID_PARAMS_CODE: i32 = -32602;

/// How a request is refused.
#[derive(Debug, Clone, PartialEq, Eq)]
pub enum RpcError {
    InvalidParams { code: i32, message: String },
}

pub type RpcResult<T> = Result<T, RpcError>;

impl RpcError {
    /// What [`RpcError::message`] shows of a code and its message.
    pub open spec fn text(code: int, message: Seq<char>) -> Seq<char> {
        "RPC response error "@ + crate::decimal::signed_decimal(code) + ": "@ + message
    }

    /// The message that refuses a request for the leaders of an epoch without a schedule.
    pub open spec fn unavailable_text(epoch: int) -> Seq<char> {
        "Invalid slot range: leader schedule for epoch "@ + crate::decimal::decimal(epoch as nat)
            + " is unavailable"@
    }

    /// Whether this refuses a request because `epoch` has no schedule.
    pub open spec fn refuses(self, epoch: int) -> bool {
        match self {
            RpcError::InvalidParams { code, message } => code == RPC_INVALID_PARAMS_CODE && message@
                == Self::unavailable_text(epoch),
        }
    }

    /// The refusal for want of a schedule for `epoch`.
    fn unavailable(epoch: Epoch) -> (error: Self)
        ensures
            error.refuses(epoch as int),
    {
        let mut message = String::from_str("Invalid slot range: leader schedule for epoch ");
        append_decimal(&mut message, epoch);
        message.append(" is unavailable");
        RpcError::InvalidParams { code: RPC_INVALID_PARAMS_CODE, message }
    }

    /// The error as a line of text.
    pub fn message(&self) -> (text: String)
        ensures
            match self {
                RpcError::InvalidParams { code, message } => text@ == Self::text(
                    *code as int,
                    message@,
                ),
            },
    {
        match self {
            RpcError::InvalidParams { code, message } => {
                let mut text = String::from_str("RPC response error ");
                append_signed_decimal(&mut text, *code);
                text.append(": ");
                text.append(message.as_str());
                text
            },
        }
    }
}

impl CacheView {
    /// The validators that lead the slots of `schedule` from index `skip` on, `limit` of them or
    /// as many as there are.
    pub open spec fn part(schedule: LeaderSchedule, skip: int, limit: int) -> Seq<Pubkey> {
        let slots = crate::leader_schedule::schedule_slots(schedule);
        let ids = slots.map_values(|leader: SlotLeader| leader.id);
        if skip >= slots.len() {
            Seq::empty()
        } else if slots.len() - skip <= limit {
            ids.skip(skip)
        } else {
            ids.subrange(skip, skip + limit)
        }
    }

    /// The validators that lead `limit` slots from index `skip` of `epoch` on, schedule by
    /// schedule; the first epoch without a schedule where that comes before.
    pub open spec fn leaders_from(self, epoch: int, skip: int, limit: int) -> Result<
        Seq<Pubkey>,
        int,
    >
        decreases u64::MAX - epoch + 1,
    {
        if limit <= 0 {
            Ok(Seq::empty())
        } else if epoch > u64::MAX {
            Err(epoch)
        } else {
            match self.schedule_for(epoch) {
                Some(schedule) => {
                    let part = Self::part(schedule, skip, limit);
                    match self.leaders_from(epoch + 1, 0, limit - part.len()) {
                        Ok(rest) => Ok(part + rest),
                        Err(missing) => Err(missing),
                    }
                },
                None => Err(epoch),
            }
        }
    }

    /// Whether the walk over the epochs that [`CacheView::leaders_from`] describes ends before the
    /// last epoch number is used up.
    pub open spec fn walk_ends(self, epoch: int, skip: int, limit: int) -> bool
        decreases u64::MAX - epoch + 1,
    {
        if limit <= 0 {
            true
        } else if epoch > u64::MAX {
            false
        } else {
            match self.schedule_for(epoch) {
                Some(schedule) => epoch < u64::MAX && self.walk_ends(
                    epoch + 1,
                    0,
                    limit - Self::part(schedule, skip, limit).len(),
                ),
                None => true,
            }
        }
    }

    /// Where the walk that [`CacheView::leaders_from`] describes ends: behind the last epoch whose
    /// schedule it takes leaders from, or at the first one without a schedule.
    pub open spec fn walk_stop(self, epoch: int, skip: int, limit: int) -> int
        decreases u64::MAX - epoch + 1,
    {
        if limit <= 0 || epoch > u64::MAX {
            epoch
        } else {
            match self.schedule_for(epoch) {
                Some(schedule) => self.walk_stop(
                    epoch + 1,
                    0,
                    limit - Self::part(schedule, skip, limit).len(),
                ),
                None => epoch,
            }
        }
    }

    /// The cache after a request for `limit` leaders from `slot` on: the epochs that the walk
    /// comes to were looked up.
    pub open spec fn after_listing(self, slot: int, limit: int) -> CacheView {
        let epoch = self.epoch_schedule.epoch_of(slot);
        self.used_through(
            epoch,
            self.walk_stop(epoch, self.epoch_schedule.index_of(slot), limit),
        )
    }

    /// The validators that lead `limit` slots from `slot` on; the first epoch without a schedule
    /// where that comes before.
    pub open spec fn leaders_at(self, slot: int, limit: int) -> Result<Seq<Pubkey>, int> {
        self.leaders_from(
            self.epoch_schedule.epoch_of(slot),
            self.epoch_schedule.index_of(slot),
            limit,
        )
    }

    /// Whether `result` is the answer that [`CacheView::leaders_at`] gives: the leaders, or a
    /// refusal for want of the epoch without a schedule.
    pub open spec fn answers(
        self,
        slot: int,
        limit: int,
        result: RpcResult<Vec<Pubkey>>,
    ) -> bool {
        match self.leaders_at(slot, limit) {
            Ok(expected) => result matches Ok(leaders) && leaders@ == expected,
            Err(epoch) => result matches Err(error) && error.refuses(epoch),
        }
    }

    /// Whether a request for `limit` leaders from `slot` on can be answered: the slot has a
    /// position, and the walk over the epochs ends.
    pub open spec fn can_list(self, slot: int, limit: int) -> bool {
        &&& self.epoch_schedule.covers(slot)
        &&& self.walk_ends(
            self.epoch_schedule.epoch_of(slot),
            self.epoch_schedule.index_of(slot),
            limit,
        )
    }
}

/// A fixed schedule without slots never fills a request.
proof fn lemma_empty_schedule_never_ends(cache: CacheView, epoch: int, skip: int, limit: int)
    requires
        cache.fixed_schedule matches Some(fixed)
            && crate::leader_schedule::schedule_slots(*fixed).len() == 0,
        0 <= epoch,
        0 <= skip,
        0 < limit,
    ensures
        !cache.walk_ends(epoch, skip, limit),
    decreases u64::MAX - epoch + 1,
{
    if epoch < u64::MAX {
        lemma_empty_schedule_never_ends(cache, epoch + 1, 0, limit);
    }
}

/// Answers requests for slot leaders from a cache of leader schedules.
pub struct SlotLeaderRpcService<'a> {
    pub leader_schedule_cache: &'a mut LeaderScheduleCache,
}

impl<'a> View for SlotLeaderRpcService<'a> {
    type V = CacheView;

    open spec fn view(&self) -> CacheView {
        (*self.leader_schedule_cache)@
    }
}

/// Puts behind `leaders` who leads the slots of `schedule` from index `skip` on, until there are
/// `limit` of them.
fn extend_leaders(schedule: &LeaderSchedule, skip: u64, limit: usize, leaders: &mut Vec<Pubkey>)
    requires
        old(leaders)@.len() <= limit,
    ensures
        final(leaders)@ == old(leaders)@ + CacheView::part(
            *schedule,
            skip as int,
            limit - old(leaders)@.len(),
        ),
        final(leaders)@.len() <= limit,
{
    let ghost slots = crate::leader_schedule::schedule_slots(*schedule);
    let ghost ids = slots.map_values(|leader: SlotLeader| leader.id);
    let ghost before = leaders@;
    let mut rest = slot_leaders(schedule);
    assert(slots.skip(0) =~= slots);
    let mut skipped: u64 = 0;
    while skipped < skip
        invariant
            skipped <= skip,
            skipped <= slots.len(),
            slots == crate::leader_schedule::schedule_slots(*schedule),
            crate::leader_schedule::leaders_left(rest) == slots.skip(skipped as int),
            leaders@ == before,
            before == old(leaders)@,
            before.len() <= limit,
        decreases skip - skipped,
    {
        if rest.next_leader().is_none() {
            assert(leaders@ =~= before + CacheView::part(
                *schedule,
                skip as int,
                limit - before.len(),
            ));
            return;
        }
        skipped = skipped + 1;
        assert(crate::leader_schedule::leaders_left(rest) =~= slots.skip(skipped as int));
    }
    let ghost mut taken: int = 0;
    assert(leaders@ =~= before + ids.subrange(skip as int, skip + taken));
    while leaders.len() < limit
        invariant
            before == old(leaders)@,
            before.len() <= leaders.len() <= limit,
            slots == crate::leader_schedule::schedule_slots(*schedule),
            ids == slots.map_values(|leader: SlotLeader| leader.id),
            0 <= taken,
            skip + taken <= slots.len(),
            leaders@.len() == before.len() + taken,
            leaders@ == before + ids.subrange(skip as int, skip + taken),
            crate::leader_schedule::leaders_left(rest) == slots.skip(skip + taken),
        decreases limit - leaders.len(),
    {
        match rest.next_leader() {
            Some(leader) => {
                leaders.push(leader.id);
                proof {
                    taken = taken + 1;
                    assert(leaders@ =~= before + ids.subrange(skip as int, skip + taken));
                    assert(crate::leader_schedule::leaders_left(rest) =~= slots.skip(
                        skip + taken,
                    ));
                }
            },
            None => {
                assert(ids.subrange(skip as int, skip + taken) =~= CacheView::part(
                    *schedule,
                    skip as int,
                    limit - before.len(),
                ));
                return;
            },
        }
    }
    assert(ids.subrange(skip as int, skip + taken) =~= CacheView::part(
        *schedule,
        skip as int,
        limit - before.len(),
    ));
}

/// What [`SlotLeaderRpcService::checked_slot_leaders`] answers, and the epoch at which its walk
/// ends.
fn list_leaders(cache: &LeaderScheduleCache, start_slot: Slot, limit: usize) -> (answer: Option<
    (RpcResult<Vec<Pubkey>>, Epoch, Epoch),
>)
    ensures
        answer is Some == cache@.can_list(start_slot as int, limit as int),
        answer matches Some((result, from, to)) ==> {
            &&& cache@.answers(start_slot as int, limit as int, result)
            &&& cache@.after_listing(start_slot as int, limit as int) == cache@.used_through(
                from as int,
                to as int,
            )
        },
{
    if !cache.epoch_schedule.has_position(start_slot) {
        return None;
    }
    let (start_epoch, start_index) = cache.epoch_schedule.get_epoch_and_slot_index(start_slot);
    let mut epoch: Epoch = start_epoch;
    let mut slot_index: u64 = start_index;
    let mut leaders: Vec<Pubkey> = Vec::new();
    while leaders.len() < limit
        invariant
            leaders.len() <= limit,
            cache@.epoch_schedule.covers(start_slot as int),
            start_epoch == cache@.epoch_schedule.epoch_of(start_slot as int),
            start_index == cache@.epoch_schedule.index_of(start_slot as int),
            cache@.can_list(start_slot as int, limit as int) == cache@.walk_ends(
                epoch as int,
                slot_index as int,
                limit - leaders@.len(),
            ),
            cache@.walk_stop(start_epoch as int, start_index as int, limit as int)
                == cache@.walk_stop(epoch as int, slot_index as int, limit - leaders@.len()),
            cache@.leaders_at(start_slot as int, limit as int) == (match cache@.leaders_from(
                epoch as int,
                slot_index as int,
                limit - leaders@.len(),
            ) {
                Ok(rest) => Ok::<Seq<Pubkey>, int>(leaders@ + rest),
                Err(missing) => Err(missing),
            }),
        decreases u64::MAX - epoch,
    {
        let schedule = match cache.peek(epoch) {
            Some(schedule) => schedule,
            None => {
                return Some((Err(RpcError::unavailable(epoch)), start_epoch, epoch));
            },
        };
        let ghost before = leaders@;
        let ghost held = cache@.schedule_for(epoch as int)->0;
        let ghost part = CacheView::part(held, slot_index as int, limit - before.len());
        extend_leaders(&schedule, slot_index, limit, &mut leaders);
        if epoch == u64::MAX {
            return None;
        }
        if cache.fixed_schedule.is_some() && num_slots(&schedule) == 0 {
            proof {
                lemma_empty_schedule_never_ends(
                    cache@,
                    epoch as int,
                    slot_index as int,
                    limit - before.len(),
                );
            }
            return None;
        }
        proof {
            match cache@.leaders_from(epoch + 1, 0, limit - leaders@.len()) {
                Ok(rest) => {
                    assert(before + (part + rest) =~= leaders@ + rest);
                },
                Err(missing) => {},
            }
        }
        epoch = epoch + 1;
        slot_index = 0;
    }
    assert(leaders@ + Seq::<Pubkey>::empty() =~= leaders@);
    Some((Ok(leaders), start_epoch, epoch))
}

impl<'a> SlotLeaderRpcService<'a> {
    pub fn new(leader_schedule_cache: &'a mut LeaderScheduleCache) -> (service: Self)
        ensures
            service@ == old(leader_schedule_cache)@,
            *service.leader_schedule_cache == *old(leader_schedule_cache),
            *final(service.leader_schedule_cache) == *final(leader_schedule_cache),
    {
        Self { leader_schedule_cache }
    }

    /// Answers `getSlotLeaders` where that is possible: the validators that lead `limit` slots
    /// from `start_slot` on, across epoch boundaries, or a refusal with the code for invalid
    /// parameters that names the first epoch without a schedule. The epochs whose leaders are
    /// listed are looked up. Nothing comes back, and nothing is looked up, where the slot has no
    /// position or the walk over the epochs would not end.
    pub fn checked_slot_leaders(&mut self, start_slot: Slot, limit: usize) -> (answer: Option<
        RpcResult<Vec<Pubkey>>,
    >)
        requires
            old(self)@.well_formed(),
        ensures
            answer is Some == old(self)@.can_list(start_slot as int, limit as int),
            answer matches Some(result) ==> old(self)@.answers(
                start_slot as int,
                limit as int,
                result,
            ),
            final(self)@ == (if answer is Some {
                old(self)@.after_listing(start_slot as int, limit as int)
            } else {
                old(self)@
            }),
            final(self)@.well_formed(),
            *final(final(self).leader_schedule_cache) == *final(old(self).leader_schedule_cache),
    {
        match list_leaders(&*self.leader_schedule_cache, start_slot, limit) {
            Some((result, from, to)) => {
                self.leader_schedule_cache.mark_used_through(from, to);
                Some(result)
            },
            None => None,
        }
    }

    /// Answers `getSlotLeaders`: the validators that lead `limit` slots from `start_slot` on,
    /// across epoch boundaries. If an epoch's schedule is not cached, the request is refused with
    /// the code for invalid parameters. The epochs whose leaders are listed are looked up.
    pub fn get_slot_leaders(&mut self, start_slot: Slot, limit: usize) -> (answer: RpcResult<
        Vec<Pubkey>,
    >)
        requires
            old(self)@.well_formed(),
            old(self)@.can_list(start_slot as int, limit as int),
        ensures
            old(self)@.answers(start_slot as int, limit as int, answer),
            final(self)@ == old(self)@.after_listing(start_slot as int, limit as int),
            final(self)@.well_formed(),
            *final(final(self).leader_schedule_cache) == *final(old(self).leader_schedule_cache),
    {
        self.checked_slot_leaders(start_slot, limit).unwrap()
    }
}

} // verus!
