//! The leader schedule of one epoch, as `solana_leader_schedule` keeps it.
//!
//! A [`LeaderSchedule`] is a value of the outside crate. Contracts speak of it through
//! [`schedule_slots`]: the leader of each slot of the schedule, in slot order. Every call into the
//! outside crate stands in a function of its own here, with what is believed of it.

use solana_clock::Epoch;
use solana_leader_schedule::LeaderSchedule;
use solana_pubkey::Pubkey;
use solana_vote::vote_account::{VoteAccount, VoteAccountsHashMap};
use std::sync::Arc;
use vstd::prelude::*;

verus! {

/// The outside type `solana_pubkey::Pubkey`: an address that is only carried through.
#[verifier::external_type_specification]
#[verifier::external_body]
pub struct ExPubkey(Pubkey);

/// The outside type `solana_vote::vote_account::VoteAccount`, which is only carried through.
#[verifier::external_type_specification]
#[verifier::external_body]
pub struct ExVoteAccount(VoteAccount);

/// The outside type `solana_leader_schedule::LeaderSchedule`. What it holds is
/// [`schedule_slots`].
#[verifier::external_type_specification]
#[verifier::external_body]
pub struct ExLeaderSchedule(LeaderSchedule);

/// The validator that leads a slot, and the vote account that its stake is delegated to.
#[derive(Clone, Copy, Debug, PartialEq, Eq)]
pub struct SlotLeader {
    pub id: Pubkey,
    pub vote_address: Pubkey,
}

/// A schedule that answers for every epoch.
#[derive(Clone, Debug)]
pub struct FixedSchedule {
    pub leader_schedule: Arc<LeaderSchedule>,
}

/// The leader of each slot of `schedule`, in slot order.
pub uninterp spec fn schedule_slots(schedule: LeaderSchedule) -> Seq<SlotLeader>;

/// The leaders that `solana_leader_schedule::LeaderSchedule::new` draws, slot by slot: a stake
/// weighted choice, seeded by the epoch, from the vote accounts, for `len` slots, with `repeat`
/// slots in a row for each choice.
pub uninterp spec fn drawn_slots(
    accounts: Map<Pubkey, (u64, VoteAccount)>,
    epoch: Epoch,
    len: nat,
    repeat: nat,
) -> Seq<SlotLeader>;

/// The number of slots of `schedule` as a machine integer: the largest `usize` where there are
/// more.
pub open spec fn slot_count(schedule: LeaderSchedule) -> int {
    if schedule_slots(schedule).len() <= usize::MAX {
        schedule_slots(schedule).len() as int
    } else {
        usize::MAX as int
    }
}

/// The leader at `index` of `schedule`, which starts over after its last slot.
pub open spec fn leader_in(schedule: LeaderSchedule, index: u64) -> SlotLeader {
    schedule_slots(schedule)[(index as usize) as int % slot_count(schedule)]
}

/// Whether `leader` leads the slot at `index` of `schedule`, which starts over after its last
/// slot.
pub open spec fn leads(schedule: LeaderSchedule, leader: Pubkey, index: int) -> bool {
    let slots = schedule_slots(schedule);
    slots.len() > 0 && slots[index % slots.len() as int].id == leader
}

/// The stake of all vote accounts together.
pub open spec fn total_stake(accounts: Map<Pubkey, (u64, VoteAccount)>) -> nat {
    accounts.dom().fold(0, stake_adder(accounts))
}

/// Adds the stake of a vote account to a sum.
pub open spec fn stake_adder(accounts: Map<Pubkey, (u64, VoteAccount)>) -> spec_fn(
    nat,
    Pubkey,
) -> nat {
    |sum: nat, address: Pubkey| sum + accounts[address].0 as nat
}

/// Whether `stakes` lists the stake of each vote account once, in the order of `addresses`.
pub open spec fn lists_stakes(
    stakes: Seq<u64>,
    accounts: Map<Pubkey, (u64, VoteAccount)>,
    addresses: Seq<Pubkey>,
) -> bool {
    &&& addresses.no_duplicates()
    &&& addresses.to_set() == accounts.dom()
    &&& stakes == addresses.map_values(|address: Pubkey| accounts[address].0)
}

/// Whether the leader only changes at every `repeat`-th slot.
pub open spec fn repeats_choices(slots: Seq<SlotLeader>, repeat: int) -> bool {
    forall|i: int| 0 <= i < slots.len() ==> #[trigger] slots[i] == slots[i - i % repeat]
}

/// Whether each leader's vote account is one of the given ones and holds stake.
pub open spec fn chooses_by_stake(
    slots: Seq<SlotLeader>,
    accounts: Map<Pubkey, (u64, VoteAccount)>,
) -> bool {
    forall|i: int|
        0 <= i < slots.len() ==> {
            let address = (#[trigger] slots[i]).vote_address;
            accounts.contains_key(address) && accounts[address].0 > 0
        }
}

/// How many of `len` slots whole turns of `repeat` slots cover.
pub open spec fn whole_turns(len: int, repeat: int) -> int {
    len - len % repeat
}

/// Whether a schedule for whole turns within `len` slots can be drawn from the vote accounts:
/// their stake is neither zero nor more than a `u64` holds, a turn has slots, and the choices (64
/// bytes each) fit in memory.
pub open spec fn can_be_drawn(
    accounts: Map<Pubkey, (u64, VoteAccount)>,
    len: int,
    repeat: int,
) -> bool {
    &&& 0 < total_stake(accounts) <= u64::MAX
    &&& repeat > 0
    &&& len / repeat * 64 <= isize::MAX
}

/// Calls `solana_leader_schedule::LeaderSchedule::num_slots`, which gives the number of slots.
#[verifier::external_body]
pub(crate) fn num_slots(schedule: &LeaderSchedule) -> (count: usize)
    ensures
        count == slot_count(*schedule),
{
    schedule.num_slots()
}

/// Calls `<solana_leader_schedule::LeaderSchedule as Index<u64>>::index`, which gives the leader
/// at an index, cut down to a `usize` and taken modulo the number of slots. It divides by that
/// number, which must not be zero.
#[verifier::external_body]
pub(crate) fn leader_at(schedule: &LeaderSchedule, index: u64) -> (leader: SlotLeader)
    requires
        schedule_slots(*schedule).len() > 0,
    ensures
        leader == leader_in(*schedule, index),
{
    let leader = schedule[index];
    SlotLeader { id: leader.id, vote_address: leader.vote_address }
}

/// Calls `solana_leader_schedule::LeaderSchedule::get_leader_upcoming_slots` and takes the first
/// index that it hands out: the least one from `offset` on that `leader` leads, where the
/// schedule starts over after its last slot; nothing where `leader` leads no slot. The index is
/// computed as a `usize`, which must not overflow.
#[verifier::external_body]
pub(crate) fn next_led_index(schedule: &LeaderSchedule, leader: &Pubkey, offset: usize) -> (found:
    Option<usize>)
    requires
        offset + schedule_slots(*schedule).len() <= usize::MAX,
    ensures
        match found {
            Some(index) => {
                &&& offset <= index
                &&& leads(*schedule, *leader, index as int)
                &&& forall|i: int| offset <= i < index ==> !leads(*schedule, *leader, i)
            },
            None => forall|i: int| 0 <= i ==> !leads(*schedule, *leader, i),
        },
{
    schedule.get_leader_upcoming_slots(leader, offset).next()
}

/// The leaders that `solana_leader_schedule::LeaderSchedule::get_slot_leaders` hands out one
/// after the other. That function returns a type without a name, so it is held in a box.
#[verifier::external_body]
pub struct SlotLeaders<'a> {
    leaders: Box<dyn Iterator<Item = &'a solana_leader_schedule::SlotLeader> + 'a>,
}

/// The leaders that are still to be handed out.
pub uninterp spec fn leaders_left(leaders: SlotLeaders<'_>) -> Seq<SlotLeader>;

/// Calls `solana_leader_schedule::LeaderSchedule::get_slot_leaders`, which hands out the leader
/// of each slot in slot order.
#[verifier::external_body]
pub(crate) fn slot_leaders<'a>(schedule: &'a LeaderSchedule) -> (leaders: SlotLeaders<'a>)
    ensures
        leaders_left(leaders) == schedule_slots(*schedule),
{
    SlotLeaders { leaders: Box::new(schedule.get_slot_leaders()) }
}

impl<'a> SlotLeaders<'a> {
    /// Calls `next` of the iterator that
    /// `solana_leader_schedule::LeaderSchedule::get_slot_leaders` returned: it hands out the
    /// first of the leaders that are left.
    #[verifier::external_body]
    pub(crate) fn next_leader(&mut self) -> (leader: Option<SlotLeader>)
        ensures
            match leader {
                Some(first) => {
                    &&& leaders_left(*old(self)).len() > 0
                    &&& first == leaders_left(*old(self))[0]
                    &&& leaders_left(*final(self)) == leaders_left(*old(self)).skip(1)
                },
                None => {
                    &&& leaders_left(*old(self)).len() == 0
                    &&& leaders_left(*final(self)).len() == 0
                },
            },
    {
        self.leaders.next().map(|leader| SlotLeader {
            id: leader.id,
            vote_address: leader.vote_address,
        })
    }
}

/// Reads the constant `solana_leader_schedule::NUM_CONSECUTIVE_LEADER_SLOTS`: the number of slots
/// in a row that one choice of a leader stands for.
#[verifier::external_body]
pub(crate) fn consecutive_leader_slots() -> (slots: usize)
    ensures
        slots == 4,
{
    solana_leader_schedule::NUM_CONSECUTIVE_LEADER_SLOTS.get()
}

/// Calls `values` of the outside type `solana_vote::vote_account::VoteAccountsHashMap`, a map of
/// std, and keeps each account's stake: there is one for each address of the map, in an order
/// that is left open.
#[verifier::external_body]
pub(crate) fn vote_stakes(accounts: &VoteAccountsHashMap) -> (stakes: Vec<u64>)
    ensures
        exists|addresses: Seq<Pubkey>| #[trigger] lists_stakes(stakes@, accounts@, addresses),
{
    accounts.values().map(|account| account.0).collect()
}

/// Calls `solana_leader_schedule::LeaderSchedule::new`, which draws the leader of each slot of an
/// epoch from the vote accounts. Each choice falls on an account with stake and stands for
/// `repeat` slots in a row. The outside function panics where there is no stake to choose by, or
/// more than a `u64` holds, asserts that `len` is divisible by `repeat`, and sets memory aside
/// for all choices. Which account a choice falls on is left to [`drawn_slots`].
#[verifier::external_body]
pub(crate) fn draw_schedule(
    accounts: &VoteAccountsHashMap,
    epoch: Epoch,
    len: usize,
    repeat: usize,
) -> (schedule: LeaderSchedule)
    requires
        can_be_drawn(accounts@, len as int, repeat as int),
        len as int % repeat as int == 0,
    ensures
        schedule_slots(schedule) == drawn_slots(accounts@, epoch, len as nat, repeat as nat),
        schedule_slots(schedule).len() == len,
        repeats_choices(schedule_slots(schedule), repeat as int),
        chooses_by_stake(schedule_slots(schedule), accounts@),
{
    let repeat = std::num::NonZeroUsize::new(repeat).unwrap();
    LeaderSchedule::new(accounts, epoch, len, repeat)
}

/// Whole turns cover a multiple of `repeat` slots, as many turns as `len` slots hold.
pub(crate) proof fn lemma_whole_turns(len: int, repeat: int)
    requires
        0 <= len,
        0 < repeat,
    ensures
        0 <= whole_turns(len, repeat) <= len,
        whole_turns(len, repeat) % repeat == 0,
        whole_turns(len, repeat) / repeat == len / repeat,
{
    vstd::arithmetic::div_mod::lemma_fundamental_div_mod(len, repeat);
    vstd::arithmetic::div_mod::lemma_mod_decreases(len as nat, repeat as nat);
    vstd::arithmetic::div_mod::lemma_div_multiples_vanish(len / repeat, repeat);
    vstd::arithmetic::div_mod::lemma_mod_multiples_basic(len / repeat, repeat);
    vstd::arithmetic::mul::lemma_mul_is_commutative(repeat, len / repeat);
}

/// The sum of `stakes`.
pub open spec fn sum(stakes: Seq<u64>) -> nat
    decreases stakes.len(),
{
    if stakes.len() == 0 {
        0
    } else {
        sum(stakes.drop_last()) + stakes.last() as nat
    }
}

/// The stakes of the first `n` addresses sum up to what is folded over those addresses.
proof fn lemma_sum_is_fold(
    stakes: Seq<u64>,
    accounts: Map<Pubkey, (u64, VoteAccount)>,
    addresses: Seq<Pubkey>,
    n: int,
)
    requires
        lists_stakes(stakes, accounts, addresses),
        0 <= n <= addresses.len(),
    ensures
        addresses.take(n).to_set().finite(),
        addresses.take(n).to_set().fold(0, stake_adder(accounts)) == sum(stakes.take(n)),
    decreases n,
{
    let adder = stake_adder(accounts);
    assert(vstd::set::fold::is_fun_commutative(adder));
    if n == 0 {
        assert(addresses.take(0).to_set() =~= Set::<Pubkey>::empty());
        vstd::set::fold::lemma_fold_empty(0, adder);
    } else {
        lemma_sum_is_fold(stakes, accounts, addresses, n - 1);
        let shorter = addresses.take(n - 1);
        let longer = addresses.take(n);
        let before = shorter.to_set();
        let address = addresses[n - 1];
        assert forall|a: Pubkey| longer.contains(a) == (shorter.contains(a) || a == address) by {
            if shorter.contains(a) {
                let i = choose|i: int| 0 <= i < shorter.len() && shorter[i] == a;
                assert(longer[i] == a);
            }
            assert(longer[n - 1] == address);
            if longer.contains(a) && a != address {
                let i = choose|i: int| 0 <= i < longer.len() && longer[i] == a;
                assert(shorter[i] == a);
            }
        }
        assert(longer.to_set() =~= before.insert(address));
        assert(!shorter.contains(address)) by {
            if shorter.contains(address) {
                let i = choose|i: int| 0 <= i < shorter.len() && shorter[i] == address;
                assert(addresses[i] == addresses[n - 1]);
            }
        }
        vstd::set::fold::lemma_fold_insert(before, 0, adder, address);
        assert(stakes.take(n).drop_last() =~= stakes.take(n - 1));
        assert(stakes.take(n).last() == accounts[address].0);
    }
}

/// The stake of some addresses is the same by any accounts that agree on them.
pub(crate) proof fn lemma_stake_depends_on_the_accounts(
    accounts: Map<Pubkey, (u64, VoteAccount)>,
    others: Map<Pubkey, (u64, VoteAccount)>,
    addresses: Set<Pubkey>,
)
    requires
        addresses.finite(),
        forall|address: Pubkey| #[trigger]
            addresses.contains(address) ==> accounts[address] == others[address],
    ensures
        addresses.fold(0, stake_adder(accounts)) == addresses.fold(0, stake_adder(others)),
    decreases addresses.len(),
{
    let one = stake_adder(accounts);
    let other = stake_adder(others);
    assert(vstd::set::fold::is_fun_commutative(one));
    assert(vstd::set::fold::is_fun_commutative(other));
    if addresses.len() == 0 {
        addresses.lemma_len0_is_empty();
        vstd::set::fold::lemma_fold_empty(0, one);
        vstd::set::fold::lemma_fold_empty(0, other);
    } else {
        let address = addresses.choose();
        let rest = addresses.remove(address);
        lemma_stake_depends_on_the_accounts(accounts, others, rest);
        vstd::set::fold::lemma_fold_insert(rest, 0, one, address);
        vstd::set::fold::lemma_fold_insert(rest, 0, other, address);
        assert(rest.insert(address) =~= addresses);
    }
}

proof fn lemma_sum_is_monotone(stakes: Seq<u64>, n: int)
    requires
        0 <= n <= stakes.len(),
    ensures
        sum(stakes.take(n)) <= sum(stakes),
    decreases stakes.len() - n,
{
    if n == stakes.len() {
        assert(stakes.take(n) =~= stakes);
    } else {
        lemma_sum_is_monotone(stakes, n + 1);
        assert(stakes.take(n + 1).drop_last() =~= stakes.take(n));
    }
}

/// Adds up `stakes`; nothing where the sum does not fit.
fn checked_sum(stakes: &Vec<u64>) -> (total: Option<u64>)
    ensures
        total == (if sum(stakes@) <= u64::MAX {
            Some(sum(stakes@) as u64)
        } else {
            None
        }),
{
    let mut total: u64 = 0;
    let mut i: usize = 0;
    while i < stakes.len()
        invariant
            i <= stakes.len(),
            total == sum(stakes@.take(i as int)),
        decreases stakes.len() - i,
    {
        proof {
            assert(stakes@.take(i + 1).drop_last() =~= stakes@.take(i as int));
            lemma_sum_is_monotone(stakes@, i + 1);
        }
        match total.checked_add(stakes[i]) {
            Some(next) => {
                total = next;
            },
            None => {
                return None;
            },
        }
        i = i + 1;
    }
    assert(stakes@.take(i as int) =~= stakes@);
    Some(total)
}

/// Whether a schedule for whole turns within `len` slots can be drawn from the vote accounts.
pub fn is_drawable(accounts: &VoteAccountsHashMap, len: usize, repeat: usize) -> (drawable: bool)
    ensures
        drawable == can_be_drawn(accounts@, len as int, repeat as int),
{
    let stakes = vote_stakes(accounts);
    proof {
        let addresses = choose|addresses: Seq<Pubkey>| #[trigger]
            lists_stakes(stakes@, accounts@, addresses);
        lemma_sum_is_fold(stakes@, accounts@, addresses, addresses.len() as int);
        assert(addresses.take(addresses.len() as int) =~= addresses);
        assert(stakes@.take(addresses.len() as int) =~= stakes@);
    }
    let staked: bool = match checked_sum(&stakes) {
        Some(total) => total > 0,
        None => false,
    };
    staked && repeat > 0 && len / repeat <= isize::MAX as usize / 64
}

} // verus!
