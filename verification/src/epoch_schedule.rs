//! Which slots make up which epoch.
//!
//! An [`EpochSchedule`] holds the same five numbers as
//! `solana_epoch_schedule::EpochSchedule`, in fields that contracts can speak of. The arithmetic
//! on them is the outside crate's: each method below hands the five numbers over and returns
//! what that crate answers.

use solana_clock::{Epoch, Slot};
use vstd::prelude::*;

verus! {

/// How the chain is cut into epochs: warm-up epochs of 32, 64, 128, ... slots up to
/// `first_normal_slot`, then epochs of `slots_per_epoch` slots.
#[derive(Clone, Copy, Debug, PartialEq, Eq, Structural)]
pub struct EpochSchedule {
    /// The number of slots of each epoch after the warm-up.
    pub slots_per_epoch: u64,
    /// How many slots before an epoch starts its leader schedule is due.
    pub leader_schedule_slot_offset: u64,
    /// Whether epochs start short and grow.
    pub warmup: bool,
    /// The first epoch after the warm-up.
    pub first_normal_epoch: u64,
    /// The first slot after the warm-up.
    pub first_normal_slot: u64,
}

impl EpochSchedule {
    /// `n`, or the largest `u64` where `n` is larger.
    pub open spec fn capped(n: int) -> int {
        if n <= u64::MAX {
            n
        } else {
            u64::MAX as int
        }
    }

    /// Two to the power of `exponent`, capped.
    pub open spec fn capped_power(exponent: int) -> int {
        if exponent < 64 {
            vstd::arithmetic::power2::pow2(exponent as nat) as int
        } else {
            u64::MAX as int
        }
    }

    /// Whether the position of `slot` can be computed: a warm-up slot has to lie below `2^63`
    /// together with the epoch that it belongs to. Every slot is covered where the warm-up ends
    /// below `2^63 - 31`.
    pub open spec fn covers(self, slot: int) -> bool {
        slot < self.first_normal_slot ==> slot + 33 <= 0x8000_0000_0000_0000
    }

    /// The epoch that `slot` belongs to.
    pub open spec fn epoch_of(self, slot: int) -> int {
        if slot < self.first_normal_slot {
            vstd::arithmetic::logarithm::log(2, slot / 32 + 1)
        } else if self.slots_per_epoch == 0 {
            self.first_normal_epoch as int
        } else {
            Self::capped(
                self.first_normal_epoch + (slot - self.first_normal_slot)
                    / self.slots_per_epoch as int,
            )
        }
    }

    /// How many slots of its epoch come before `slot`.
    pub open spec fn index_of(self, slot: int) -> int {
        if slot < self.first_normal_slot {
            slot - 32 * (vstd::arithmetic::power2::pow2(self.epoch_of(slot) as nat) - 1)
        } else if self.slots_per_epoch == 0 {
            0
        } else {
            (slot - self.first_normal_slot) % self.slots_per_epoch as int
        }
    }

    /// The number of slots of `epoch`. A warm-up epoch's number counts modulo `2^32`.
    pub open spec fn slots_in(self, epoch: int) -> int {
        if epoch < self.first_normal_epoch {
            Self::capped_power(epoch % 0x1_0000_0000 + 5)
        } else {
            self.slots_per_epoch as int
        }
    }

    /// The number of slots of `epoch`, cut down to a `usize`.
    pub open spec fn length_of(self, epoch: int) -> int {
        (self.slots_in(epoch) as u64 as usize) as int
    }

    /// The first slot of `epoch`. A warm-up epoch's number counts modulo `2^32`.
    pub open spec fn first_slot_in(self, epoch: int) -> int {
        if epoch <= self.first_normal_epoch {
            Self::capped((Self::capped_power(epoch % 0x1_0000_0000) - 1) * 32)
        } else {
            Self::capped(
                (epoch - self.first_normal_epoch) * self.slots_per_epoch + self.first_normal_slot,
            )
        }
    }

    /// The last slot of `epoch`.
    pub open spec fn last_slot_in(self, epoch: int) -> int {
        let end = Self::capped(self.first_slot_in(epoch) + self.slots_in(epoch));
        if end > 0 {
            end - 1
        } else {
            0
        }
    }

    /// The newest epoch whose leader schedule is due once `slot` is rooted.
    pub open spec fn leader_schedule_epoch_of(self, slot: int) -> int {
        if slot < self.first_normal_slot {
            Self::capped(self.epoch_of(slot) + 1)
        } else if self.slots_per_epoch == 0 {
            self.first_normal_epoch as int
        } else {
            Self::capped(
                self.first_normal_epoch + Self::capped(
                    slot - self.first_normal_slot + self.leader_schedule_slot_offset,
                ) / self.slots_per_epoch as int,
            )
        }
    }

    /// Whether the five numbers fit together, as `solana_epoch_schedule::EpochSchedule::custom`
    /// makes them: epochs are not empty, and the warm-up epochs fill exactly the slots before
    /// `first_normal_slot`.
    pub open spec fn regular(self) -> bool {
        &&& self.slots_per_epoch > 0
        &&& self.first_normal_epoch <= 58
        &&& self.first_normal_slot == 32 * (vstd::arithmetic::power2::pow2(
            self.first_normal_epoch as nat,
        ) - 1)
    }

    /// Where `epoch` starts on an unbounded slot axis.
    pub open spec fn start_of(self, epoch: int) -> int {
        if epoch <= self.first_normal_epoch {
            32 * (vstd::arithmetic::power2::pow2(epoch as nat) - 1)
        } else {
            (epoch - self.first_normal_epoch) * self.slots_per_epoch + self.first_normal_slot
        }
    }

    /// Whether the position of `slot` can be computed.
    pub fn has_position(&self, slot: Slot) -> (computable: bool)
        ensures
            computable == self.covers(slot as int),
    {
        slot >= self.first_normal_slot || slot <= 0x8000_0000_0000_0000 - 33
    }

    /// Calls `solana_epoch_schedule::EpochSchedule::without_warmup`, which gives the default of
    /// 432000 slots per epoch, due one epoch ahead, with no warm-up.
    #[verifier::external_body]
    pub(crate) fn without_warmup() -> (schedule: Self)
        ensures
            schedule == (EpochSchedule {
                slots_per_epoch: 432_000,
                leader_schedule_slot_offset: 432_000,
                warmup: false,
                first_normal_epoch: 0,
                first_normal_slot: 0,
            }),
    {
        let schedule = solana_epoch_schedule::EpochSchedule::without_warmup();
        EpochSchedule {
            slots_per_epoch: schedule.slots_per_epoch,
            leader_schedule_slot_offset: schedule.leader_schedule_slot_offset,
            warmup: schedule.warmup,
            first_normal_epoch: schedule.first_normal_epoch,
            first_normal_slot: schedule.first_normal_slot,
        }
    }

    /// Calls `solana_epoch_schedule::EpochSchedule::get_epoch_and_slot_index`, which gives the
    /// epoch of a slot and the slot's index in it. The outside function computes the next power
    /// of two of a warm-up slot plus 33, which has to fit.
    #[verifier::external_body]
    pub(crate) fn get_epoch_and_slot_index(&self, slot: Slot) -> (position: (Epoch, u64))
        requires
            self.covers(slot as int),
        ensures
            position.0 == self.epoch_of(slot as int),
            position.1 == self.index_of(slot as int),
    {
        solana_epoch_schedule::EpochSchedule {
            slots_per_epoch: self.slots_per_epoch,
            leader_schedule_slot_offset: self.leader_schedule_slot_offset,
            warmup: self.warmup,
            first_normal_epoch: self.first_normal_epoch,
            first_normal_slot: self.first_normal_slot,
        }.get_epoch_and_slot_index(slot)
    }

    /// Calls `solana_epoch_schedule::EpochSchedule::get_leader_schedule_epoch`, which gives the
    /// newest epoch whose leader schedule is due once a slot is rooted.
    #[verifier::external_body]
    pub(crate) fn get_leader_schedule_epoch(&self, slot: Slot) -> (epoch: Epoch)
        requires
            self.covers(slot as int),
        ensures
            epoch == self.leader_schedule_epoch_of(slot as int),
    {
        solana_epoch_schedule::EpochSchedule {
            slots_per_epoch: self.slots_per_epoch,
            leader_schedule_slot_offset: self.leader_schedule_slot_offset,
            warmup: self.warmup,
            first_normal_epoch: self.first_normal_epoch,
            first_normal_slot: self.first_normal_slot,
        }.get_leader_schedule_epoch(slot)
    }

    /// Calls `solana_epoch_schedule::EpochSchedule::get_slots_in_epoch`, which gives the number
    /// of slots of an epoch.
    #[verifier::external_body]
    pub(crate) fn get_slots_in_epoch(&self, epoch: Epoch) -> (slots: u64)
        ensures
            slots == self.slots_in(epoch as int),
    {
        solana_epoch_schedule::EpochSchedule {
            slots_per_epoch: self.slots_per_epoch,
            leader_schedule_slot_offset: self.leader_schedule_slot_offset,
            warmup: self.warmup,
            first_normal_epoch: self.first_normal_epoch,
            first_normal_slot: self.first_normal_slot,
        }.get_slots_in_epoch(epoch)
    }

    /// Calls `solana_epoch_schedule::EpochSchedule::get_first_slot_in_epoch`, which gives the
    /// first slot of an epoch.
    #[verifier::external_body]
    pub(crate) fn get_first_slot_in_epoch(&self, epoch: Epoch) -> (slot: Slot)
        ensures
            slot == self.first_slot_in(epoch as int),
    {
        solana_epoch_schedule::EpochSchedule {
            slots_per_epoch: self.slots_per_epoch,
            leader_schedule_slot_offset: self.leader_schedule_slot_offset,
            warmup: self.warmup,
            first_normal_epoch: self.first_normal_epoch,
            first_normal_slot: self.first_normal_slot,
        }.get_first_slot_in_epoch(epoch)
    }

    /// Calls `solana_epoch_schedule::EpochSchedule::get_last_slot_in_epoch`, which gives the last
    /// slot of an epoch.
    #[verifier::external_body]
    pub(crate) fn get_last_slot_in_epoch(&self, epoch: Epoch) -> (slot: Slot)
        ensures
            slot == self.last_slot_in(epoch as int),
    {
        solana_epoch_schedule::EpochSchedule {
            slots_per_epoch: self.slots_per_epoch,
            leader_schedule_slot_offset: self.leader_schedule_slot_offset,
            warmup: self.warmup,
            first_normal_epoch: self.first_normal_epoch,
            first_normal_slot: self.first_normal_slot,
        }.get_last_slot_in_epoch(epoch)
    }
}

/// The logarithm of `x` is `e` where `x` lies between two to the power of `e` and of `e + 1`.
proof fn lemma_log_between_powers(x: int, e: nat)
    requires
        vstd::arithmetic::power2::pow2(e) <= x < vstd::arithmetic::power2::pow2(e + 1),
    ensures
        vstd::arithmetic::logarithm::log(2, x) == e,
    decreases e,
{
    vstd::arithmetic::power2::lemma2_to64();
    if e == 0 {
        vstd::arithmetic::logarithm::lemma_log0(2, x);
    } else {
        let d = (e - 1) as nat;
        vstd::arithmetic::power2::lemma_pow2_unfold(e);
        vstd::arithmetic::power2::lemma_pow2_unfold(e + 1);
        vstd::arithmetic::power2::lemma_pow2_pos(d);
        lemma_log_between_powers(x / 2, d);
        vstd::arithmetic::logarithm::lemma_log_s(2, x);
    }
}

/// The logarithm of `x` brackets `x` between powers of two.
proof fn lemma_log_brackets(x: int)
    requires
        x >= 1,
    ensures
        ({
            let e = vstd::arithmetic::logarithm::log(2, x);
            &&& e >= 0
            &&& vstd::arithmetic::power2::pow2(e as nat) <= x
            &&& x < vstd::arithmetic::power2::pow2((e + 1) as nat)
        }),
    decreases x,
{
    vstd::arithmetic::power2::lemma2_to64();
    if x < 2 {
        vstd::arithmetic::logarithm::lemma_log0(2, x);
    } else {
        lemma_log_brackets(x / 2);
        vstd::arithmetic::logarithm::lemma_log_s(2, x);
        let e = vstd::arithmetic::logarithm::log(2, x);
        vstd::arithmetic::power2::lemma_pow2_unfold(e as nat);
        vstd::arithmetic::power2::lemma_pow2_unfold((e + 1) as nat);
    }
}

proof fn lemma_pow2_monotone(a: nat, b: nat)
    requires
        a <= b,
    ensures
        vstd::arithmetic::power2::pow2(a) <= vstd::arithmetic::power2::pow2(b),
{
    if a < b {
        vstd::arithmetic::power2::lemma_pow2_strictly_increases(a, b);
    }
}

/// Every slot has an epoch and an index in it, none of them negative.
pub(crate) proof fn lemma_position_is_not_negative(schedule: EpochSchedule, slot: int)
    requires
        0 <= slot,
    ensures
        0 <= schedule.epoch_of(slot),
        0 <= schedule.index_of(slot),
{
    if slot < schedule.first_normal_slot {
        lemma_log_brackets(slot / 32 + 1);
    } else if schedule.slots_per_epoch > 0 {
        let placed = slot - schedule.first_normal_slot;
        vstd::arithmetic::div_mod::lemma_div_pos_is_pos(placed, schedule.slots_per_epoch as int);
    }
}

/// The number of slots of an epoch is a `u64`.
pub(crate) proof fn lemma_slots_in_is_u64(schedule: EpochSchedule, epoch: int)
    requires
        0 <= epoch,
    ensures
        0 <= schedule.slots_in(epoch) <= u64::MAX,
{
    vstd::arithmetic::power2::lemma2_to64();
    vstd::arithmetic::power2::lemma2_to64_rest();
    let exponent = epoch % 0x1_0000_0000 + 5;
    if exponent < 64 {
        lemma_pow2_monotone(exponent as nat, 63);
    }
}

/// Epochs lie end to end: each starts where the one before it ends.
pub proof fn law_epochs_are_adjacent(schedule: EpochSchedule, epoch: int)
    requires
        schedule.regular(),
        0 <= epoch <= u64::MAX,
    ensures
        schedule.slots_in(epoch) > 0,
        schedule.start_of(0) == 0,
        schedule.start_of(epoch) >= epoch,
        schedule.start_of(epoch + 1) == schedule.start_of(epoch) + schedule.slots_in(epoch),
        schedule.first_slot_in(epoch) == EpochSchedule::capped(schedule.start_of(epoch)),
{
    vstd::arithmetic::power2::lemma2_to64();
    let normal = schedule.first_normal_epoch as int;
    let length = schedule.slots_per_epoch as int;
    if epoch < normal {
        vstd::arithmetic::power2::lemma_pow2_unfold((epoch + 1) as nat);
        vstd::arithmetic::power2::lemma_pow2_adds(epoch as nat, 5);
        vstd::arithmetic::power2::lemma_pow2_pos((epoch + 5) as nat);
        assert(epoch % 0x1_0000_0000 == epoch);
        assert(epoch + 5 < 64);
    } else {
        assert((epoch + 1 - normal) * length == (epoch - normal) * length + length)
            by (nonlinear_arith);
        assert((epoch - normal) * length >= epoch - normal) by (nonlinear_arith)
            requires
                length >= 1,
                epoch >= normal,
        ;
        if epoch == normal {
            assert((epoch - normal) * length == 0) by (nonlinear_arith)
                requires
                    epoch == normal,
            ;
        }
    }
    if epoch <= normal {
        assert(epoch % 0x1_0000_0000 == epoch);
        lemma_pow2_monotone(epoch as nat, 58);
        lemma_pow2_exceeds(epoch as nat);
    } else {
        lemma_pow2_exceeds(normal as nat);
    }
}

proof fn lemma_pow2_exceeds(n: nat)
    ensures
        vstd::arithmetic::power2::pow2(n) > n,
    decreases n,
{
    vstd::arithmetic::power2::lemma2_to64();
    if n > 0 {
        lemma_pow2_exceeds((n - 1) as nat);
        vstd::arithmetic::power2::lemma_pow2_unfold(n);
    }
}

/// The slot at `index` of `epoch` is found at that place again.
pub proof fn law_position_of_placed_slot(schedule: EpochSchedule, epoch: int, index: int)
    requires
        schedule.regular(),
        0 <= epoch <= u64::MAX,
        0 <= index < schedule.slots_in(epoch),
        schedule.start_of(epoch) + index <= u64::MAX,
    ensures
        schedule.covers(schedule.start_of(epoch) + index),
        schedule.epoch_of(schedule.start_of(epoch) + index) == epoch,
        schedule.index_of(schedule.start_of(epoch) + index) == index,
{
    vstd::arithmetic::power2::lemma2_to64();
    vstd::arithmetic::power2::lemma2_to64_rest();
    let slot = schedule.start_of(epoch) + index;
    let normal = schedule.first_normal_epoch as int;
    let length = schedule.slots_per_epoch as int;
    lemma_pow2_monotone(normal as nat, 58);
    if epoch < normal {
        vstd::arithmetic::power2::lemma_pow2_unfold((epoch + 1) as nat);
        vstd::arithmetic::power2::lemma_pow2_adds(epoch as nat, 5);
        lemma_pow2_monotone((epoch + 1) as nat, normal as nat);
        assert(epoch % 0x1_0000_0000 == epoch);
        lemma_log_between_powers(slot / 32 + 1, epoch as nat);
    } else {
        let placed = slot - schedule.first_normal_slot;
        assert((epoch - normal) * length >= 0) by (nonlinear_arith)
            requires
                epoch >= normal,
                length >= 1,
        ;
        if epoch == normal {
            assert((epoch - normal) * length == 0) by (nonlinear_arith)
                requires
                    epoch == normal,
            ;
        }
        assert(placed == (epoch - normal) * length + index);
        vstd::arithmetic::div_mod::lemma_fundamental_div_mod_converse(
            placed,
            length,
            epoch - normal,
            index,
        );
    }
}

/// Every slot has a place: it lies in the epoch that it is said to belong to, at its index.
pub proof fn law_every_slot_has_a_position(schedule: EpochSchedule, slot: int)
    requires
        schedule.regular(),
        0 <= slot <= u64::MAX,
    ensures
        schedule.covers(slot),
        0 <= schedule.epoch_of(slot) <= u64::MAX,
        0 <= schedule.index_of(slot) < schedule.slots_in(schedule.epoch_of(slot)),
        schedule.start_of(schedule.epoch_of(slot)) + schedule.index_of(slot) == slot,
        schedule.first_slot_in(schedule.epoch_of(slot)) == schedule.start_of(
            schedule.epoch_of(slot),
        ),
{
    vstd::arithmetic::power2::lemma2_to64();
    vstd::arithmetic::power2::lemma2_to64_rest();
    let normal = schedule.first_normal_epoch as int;
    let length = schedule.slots_per_epoch as int;
    lemma_pow2_monotone(normal as nat, 58);
    lemma_pow2_exceeds(normal as nat);
    let epoch = schedule.epoch_of(slot);
    if slot < schedule.first_normal_slot {
        lemma_log_brackets(slot / 32 + 1);
        vstd::arithmetic::power2::lemma_pow2_unfold((epoch + 1) as nat);
        vstd::arithmetic::power2::lemma_pow2_adds(epoch as nat, 5);
        if epoch >= normal {
            lemma_pow2_monotone(normal as nat, epoch as nat);
        }
        assert(epoch % 0x1_0000_0000 == epoch);
        lemma_pow2_monotone(epoch as nat, 58);
    } else {
        let placed = slot - schedule.first_normal_slot;
        vstd::arithmetic::div_mod::lemma_fundamental_div_mod(placed, length);
        vstd::arithmetic::div_mod::lemma_div_pos_is_pos(placed, length);
        vstd::arithmetic::div_mod::lemma_mod_bound(placed, length);
        vstd::arithmetic::div_mod::lemma_div_is_ordered_by_denominator(placed, 1, length);
        assert(placed / 1 == placed);
        assert(epoch == normal + placed / length);
        assert((epoch - normal) * length == length * (placed / length)) by (nonlinear_arith)
            requires
                epoch == normal + placed / length,
        ;
        if epoch == normal {
            assert((epoch - normal) * length == 0) by (nonlinear_arith)
                requires
                    epoch == normal,
            ;
            assert(epoch % 0x1_0000_0000 == epoch);
        }
    }
}

/// A later epoch starts no earlier.
pub proof fn law_starts_ascend(schedule: EpochSchedule, earlier: int, later: int)
    requires
        schedule.regular(),
        0 <= earlier <= later <= u64::MAX,
    ensures
        schedule.start_of(earlier) <= schedule.start_of(later),
        earlier < later ==> schedule.start_of(earlier) + schedule.slots_in(earlier)
            <= schedule.start_of(later),
    decreases later - earlier,
{
    if earlier < later {
        law_epochs_are_adjacent(schedule, earlier);
        law_starts_ascend(schedule, earlier + 1, later);
    }
}

/// A slot belongs to an epoch that starts at or before it, and to none that starts after it.
pub proof fn law_slot_lies_between_epoch_starts(schedule: EpochSchedule, epoch: int, slot: int)
    requires
        schedule.regular(),
        0 <= epoch <= u64::MAX,
        0 <= slot <= u64::MAX,
    ensures
        schedule.start_of(epoch) <= slot <==> epoch <= schedule.epoch_of(slot),
{
    law_every_slot_has_a_position(schedule, slot);
    let found = schedule.epoch_of(slot);
    if found < epoch {
        law_starts_ascend(schedule, found, epoch);
    } else {
        law_starts_ascend(schedule, epoch, found);
    }
}

/// A later slot belongs to no earlier epoch.
pub proof fn law_epochs_ascend_with_slots(schedule: EpochSchedule, earlier: int, later: int)
    requires
        schedule.regular(),
        0 <= earlier <= later <= u64::MAX,
    ensures
        schedule.epoch_of(earlier) <= schedule.epoch_of(later),
{
    law_every_slot_has_a_position(schedule, earlier);
    law_slot_lies_between_epoch_starts(schedule, schedule.epoch_of(earlier), later);
}

/// The slot behind a slot belongs to the same epoch or to the next one.
pub proof fn law_next_slot_skips_no_epoch(schedule: EpochSchedule, slot: int)
    requires
        schedule.regular(),
        0 <= slot < u64::MAX,
    ensures
        schedule.epoch_of(slot) <= schedule.epoch_of(slot + 1) <= schedule.epoch_of(slot) + 1,
{
    let epoch = schedule.epoch_of(slot);
    law_epochs_ascend_with_slots(schedule, slot, slot + 1);
    law_every_slot_has_a_position(schedule, slot);
    law_every_slot_has_a_position(schedule, slot + 1);
    if schedule.epoch_of(slot + 1) > epoch + 1 {
        law_slot_lies_between_epoch_starts(schedule, epoch + 1, slot);
        law_slot_lies_between_epoch_starts(schedule, epoch + 2, slot + 1);
        law_epochs_are_adjacent(schedule, epoch + 1);
    }
}

} // verus!
