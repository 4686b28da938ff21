//! An auction round: some positions pinned, the others searched.

use crate::allocation::amounts_of;
use crate::allocation::guests_of;
use crate::allocation::pair_up;
use crate::allocation::paired;
use crate::allocation::total;
use crate::error::AllocError;
use crate::guest::all_well_formed;
use crate::guest::Guest;
use crate::guest::GuestModel;
use crate::solver::run_search;
use crate::solver::search;
use crate::solver::search_covers_all;
use crate::solver::search_forbids_nothing;
use crate::solver::search_within_budget;
use std::collections::HashMap;
use vstd::prelude::*;

verus! {

/// For each of `count` positions the amount that `pinned` fixes there, if any.
/// Keys of no position are not read.
pub open spec fn fixed_by(pinned: Map<u64, u64>, count: nat) -> Seq<Option<u64>> {
    Seq::new(
        count,
        |position: int|
            if pinned.contains_key(position as u64) {
                Some(pinned[position as u64])
            } else {
                None
            },
    )
}

/// The sum of the fixed amounts.
pub open spec fn fixed_total(fixed: Seq<Option<u64>>) -> nat
    decreases fixed.len(),
{
    if fixed.len() == 0 {
        0
    } else {
        fixed_total(fixed.drop_last()) + match fixed.last() {
            Some(amount) => amount as nat,
            None => 0,
        }
    }
}

/// How many of the first `position` positions are free.
pub open spec fn free_rank(fixed: Seq<Option<u64>>, position: int) -> nat
    decreases position,
{
    if position <= 0 {
        0
    } else {
        free_rank(fixed, position - 1) + if fixed[position - 1] is None {
            1nat
        } else {
            0nat
        }
    }
}

/// The guests at the free positions, in their order.
pub open spec fn free_guests(guests: Seq<GuestModel>, fixed: Seq<Option<u64>>) -> Seq<GuestModel>
    decreases fixed.len(),
{
    if fixed.len() == 0 {
        Seq::empty()
    } else if fixed.last() is None {
        free_guests(guests, fixed.drop_last()).push(guests[fixed.len() - 1])
    } else {
        free_guests(guests, fixed.drop_last())
    }
}

/// The amounts of all positions: a fixed position holds its fixed amount, and
/// the free positions hold `free_amounts` in their order.
pub open spec fn spliced(fixed: Seq<Option<u64>>, free_amounts: Seq<u64>) -> Seq<u64> {
    Seq::new(
        fixed.len(),
        |position: int|
            match fixed[position] {
                Some(amount) => amount,
                None => free_amounts[free_rank(fixed, position) as int],
            },
    )
}

/// Whether no fixed amount lies strictly inside a forbidden range of the guest
/// at its position.
pub open spec fn pins_allowed(guests: Seq<GuestModel>, fixed: Seq<Option<u64>>) -> bool {
    forall|position: int|
        0 <= position < fixed.len() ==> match #[trigger] fixed[position] {
            Some(amount) => !guests[position].forbids(amount as int),
            None => true,
        }
}

/// What an auction round comes to: the amounts of all positions, or why there
/// are none.
///
/// Malformed ranges are refused first, then a fixed amount that its guest
/// forbids, then fixed amounts beyond the budget. Otherwise the fixed amounts
/// are taken off the budget and the free guests are searched with the rest.
pub open spec fn settle(guests: Seq<GuestModel>, available: u64, fixed: Seq<Option<u64>>) -> Result<
    Seq<u64>,
    AllocError,
> {
    if !all_well_formed(guests) {
        Err(AllocError::MalformedRanges)
    } else if !pins_allowed(guests, fixed) {
        Err(AllocError::ForbiddenPin)
    } else if fixed_total(fixed) > available {
        Err(AllocError::BudgetUnderflow)
    } else {
        Ok(
            spliced(
                fixed,
                search(free_guests(guests, fixed), (available - fixed_total(fixed)) as u64),
            ),
        )
    }
}

/// The free positions before `position` are the same in every longer list.
pub(crate) proof fn free_rank_of_prefix(fixed: Seq<Option<u64>>, length: int, position: int)
    requires
        0 <= position <= length <= fixed.len(),
    ensures
        free_rank(fixed.take(length), position) == free_rank(fixed, position),
    decreases position,
{
    if position > 0 {
        free_rank_of_prefix(fixed, length, position - 1);
    }
}

/// Later positions have no fewer free positions before them, and one more
/// behind a free position.
pub(crate) proof fn free_rank_grows(fixed: Seq<Option<u64>>, earlier: int, later: int)
    requires
        0 <= earlier <= later <= fixed.len(),
    ensures
        free_rank(fixed, earlier) <= free_rank(fixed, later),
        earlier < later && fixed[earlier] is None ==> free_rank(fixed, earlier) < free_rank(
            fixed,
            later,
        ),
    decreases later,
{
    if earlier < later {
        free_rank_grows(fixed, earlier, later - 1);
    }
}

/// There are as many free guests as free positions.
pub(crate) proof fn free_guests_count(guests: Seq<GuestModel>, fixed: Seq<Option<u64>>)
    ensures
        free_guests(guests, fixed).len() == free_rank(fixed, fixed.len() as int),
    decreases fixed.len(),
{
    if fixed.len() > 0 {
        free_guests_count(guests, fixed.drop_last());
        free_rank_of_prefix(fixed, fixed.len() - 1, fixed.len() - 1);
    }
}

/// The guest of a free position stands among the free guests at the rank of
/// that position.
pub(crate) proof fn free_guest_at_rank(
    guests: Seq<GuestModel>,
    fixed: Seq<Option<u64>>,
    position: int,
)
    requires
        0 <= position < fixed.len(),
        fixed[position] is None,
    ensures
        free_rank(fixed, position) < free_guests(guests, fixed).len(),
        free_guests(guests, fixed)[free_rank(fixed, position) as int] == guests[position],
    decreases fixed.len(),
{
    let shorter = fixed.drop_last();
    free_guests_count(guests, fixed);
    free_guests_count(guests, shorter);
    free_rank_of_prefix(fixed, fixed.len() - 1, fixed.len() - 1);
    if position < fixed.len() - 1 {
        free_guest_at_rank(guests, shorter, position);
        free_rank_of_prefix(fixed, fixed.len() - 1, position);
    }
}

/// The guests at the free positions are well formed where all guests are.
pub(crate) proof fn free_guests_stay_well_formed(guests: Seq<GuestModel>, fixed: Seq<Option<u64>>)
    requires
        all_well_formed(guests),
        fixed.len() <= guests.len(),
    ensures
        all_well_formed(free_guests(guests, fixed)),
    decreases fixed.len(),
{
    if fixed.len() > 0 {
        free_guests_stay_well_formed(guests, fixed.drop_last());
        assert(guests[fixed.len() - 1].well_formed());
    }
}

/// Splicing loses and adds nothing: the amounts of all positions sum to the
/// fixed amounts and the free amounts together.
pub(crate) proof fn spliced_total(fixed: Seq<Option<u64>>, free_amounts: Seq<u64>)
    requires
        free_amounts.len() == free_rank(fixed, fixed.len() as int),
    ensures
        total(spliced(fixed, free_amounts)) == fixed_total(fixed) + total(free_amounts),
    decreases fixed.len(),
{
    if fixed.len() > 0 {
        let last = fixed.len() - 1;
        let shorter = fixed.drop_last();
        let all = spliced(fixed, free_amounts);
        free_rank_of_prefix(fixed, last, last);
        let free_before = if fixed[last] is None {
            free_amounts.drop_last()
        } else {
            free_amounts
        };
        assert(all.drop_last() =~= spliced(shorter, free_before)) by {
            assert forall|position: int| 0 <= position < last implies all[position] == spliced(
                shorter,
                free_before,
            )[position] by {
                free_rank_of_prefix(fixed, last, position);
                free_rank_grows(fixed, position, last);
            }
        }
        spliced_total(shorter, free_before);
    }
}

/// An auction round never hands out more than there is.
pub proof fn settle_within_budget(guests: Seq<GuestModel>, available: u64, fixed: Seq<Option<u64>>)
    requires
        settle(guests, available, fixed) is Ok,
    ensures
        settle(guests, available, fixed)->Ok_0.len() == fixed.len(),
        total(settle(guests, available, fixed)->Ok_0) <= available,
{
    let free = free_guests(guests, fixed);
    let budget = (available - fixed_total(fixed)) as u64;
    search_covers_all(free, budget);
    search_within_budget(free, budget);
    free_guests_count(guests, fixed);
    spliced_total(fixed, search(free, budget));
}

/// An auction round leaves every fixed position with its fixed amount and no
/// position with an amount strictly inside a forbidden range of its guest.
pub proof fn settle_respects_ranges(
    guests: Seq<GuestModel>,
    available: u64,
    fixed: Seq<Option<u64>>,
)
    requires
        settle(guests, available, fixed) is Ok,
        fixed.len() == guests.len(),
    ensures
        forall|position: int|
            0 <= position < guests.len() ==> !(#[trigger] guests[position]).forbids(
                settle(guests, available, fixed)->Ok_0[position] as int,
            ),
        forall|position: int|
            0 <= position < guests.len() ==> (#[trigger] fixed[position] matches Some(amount)
                ==> settle(guests, available, fixed)->Ok_0[position] == amount),
{
    let free = free_guests(guests, fixed);
    let budget = (available - fixed_total(fixed)) as u64;
    let amounts = settle(guests, available, fixed)->Ok_0;
    free_guests_stay_well_formed(guests, fixed);
    search_forbids_nothing(free, budget);
    assert forall|position: int| 0 <= position < guests.len() implies !(
    #[trigger] guests[position]).forbids(amounts[position] as int) by {
        match fixed[position] {
            Some(amount) => {
                assert(amounts[position] == amount);
            },
            None => {
                free_guest_at_rank(guests, fixed, position);
            },
        }
    }
}

/// Decides whether every guest has well-formed ranges.
pub fn all_ranges_well_formed(guests: &Vec<&Guest>) -> (ok: bool)
    ensures
        ok == all_well_formed(guests.deep_view()),
{
    let n = guests.len();
    let mut k: usize = 0;
    while k < n
        invariant
            n == guests.len(),
            k <= n,
            forall|j: int| 0 <= j < k ==> (#[trigger] guests.deep_view()[j]).well_formed(),
        decreases n - k,
    {
        if !guests[k].has_well_formed_ranges() {
            assert(!guests.deep_view()[k as int].well_formed());
            return false;
        }
        k += 1;
    }
    true
}

/// Allocates `available` among the guests, who stand in priority order: the
/// guest at position 0 is served first.
///
/// `pinned` fixes the amounts of some positions; they are taken off the budget
/// as they are, and the other positions are searched with the rest. The
/// result holds every guest beside its amount, in the order of the guests.
///
/// The round is refused where a guest has malformed ranges, where a pinned
/// amount lies strictly inside a forbidden range of its guest, and where the
/// pinned amounts exceed `available`. No round is refused for the size of its
/// welfare: branches are compared in arithmetic wide enough for every round.
pub fn solve<'a>(
    sorted_guests: &Vec<&'a Guest>,
    available: u64,
    pinned: &HashMap<u64, u64>,
) -> (outcome: Result<Vec<(&'a Guest, u64)>, AllocError>)
    ensures
        ({
            let guests = sorted_guests.deep_view();
            let fixed = fixed_by(pinned@, guests.len());
            match outcome {
                Ok(pairs) => {
                    &&& settle(guests, available, fixed) == Ok::<Seq<u64>, AllocError>(
                        amounts_of(pairs.deep_view()),
                    )
                    &&& guests_of(pairs.deep_view()) == guests
                    &&& pairs.len() == sorted_guests.len()
                    &&& total(amounts_of(pairs.deep_view())) <= available
                    &&& forall|position: int|
                        0 <= position < guests.len() ==> !(#[trigger] guests[position]).forbids(
                            pairs.deep_view()[position].1 as int,
                        )
                    &&& forall|position: int|
                        0 <= position < guests.len() ==> (#[trigger] fixed[position] matches Some(
                            amount,
                        ) ==> pairs.deep_view()[position].1 == amount)
                },
                Err(reason) => settle(guests, available, fixed) == Err::<Seq<u64>, AllocError>(
                    reason,
                ),
            }
        }),
{
    broadcast use vstd::std_specs::hash::group_hash_axioms;

    let ghost guests = sorted_guests.deep_view();
    let ghost all_fixed = fixed_by(pinned@, guests.len());
    if !all_ranges_well_formed(sorted_guests) {
        return Err(AllocError::MalformedRanges);
    }
    let n = sorted_guests.len();
    let mut fixed: Vec<Option<u64>> = Vec::new();
    let mut free: Vec<&'a Guest> = Vec::new();
    let mut remaining: u64 = available;
    let mut overdrawn = false;
    let mut k: usize = 0;
    while k < n
        invariant
            guests == sorted_guests.deep_view(),
            all_well_formed(guests),
            all_fixed == fixed_by(pinned@, guests.len()),
            n == sorted_guests.len(),
            k <= n,
            fixed@ == all_fixed.take(k as int),
            pins_allowed(guests, fixed@),
            free.deep_view() == free_guests(guests, fixed@),
            overdrawn ==> fixed_total(fixed@) > available,
            !overdrawn ==> remaining + fixed_total(fixed@) == available,
        decreases n - k,
    {
        let ghost before = fixed@;
        let ghost free_before = free.deep_view();
        let key = k as u64;
        match pinned.get(&key) {
            Some(amount) => {
                let amount = *amount;
                if sorted_guests[k].forbids(amount) {
                    assert(all_fixed[k as int] == Some(amount));
                    return Err(AllocError::ForbiddenPin);
                }
                fixed.push(Some(amount));
                proof {
                    assert(fixed@.drop_last() =~= before);
                    assert(fixed@ =~= all_fixed.take(k + 1));
                }
                if !overdrawn && amount <= remaining {
                    remaining = remaining - amount;
                } else {
                    overdrawn = true;
                }
            },
            None => {
                fixed.push(None);
                free.push(sorted_guests[k]);
                proof {
                    assert(fixed@.drop_last() =~= before);
                    assert(fixed@ =~= all_fixed.take(k + 1));
                    assert(free.deep_view() =~= free_before.push(guests[k as int]));
                }
            },
        }
        k += 1;
    }
    assert(all_fixed.take(n as int) =~= all_fixed);
    if overdrawn {
        return Err(AllocError::BudgetUnderflow);
    }
    let free_amounts = run_search(&free, remaining);
    proof {
        search_covers_all(free.deep_view(), remaining);
        free_guests_count(guests, all_fixed);
    }
    let mut amounts: Vec<u64> = Vec::new();
    let mut next: usize = 0;
    let mut k: usize = 0;
    while k < n
        invariant
            n == fixed.len(),
            k <= n,
            amounts.len() == k,
            next == free_rank(fixed@, k as int),
            free_amounts.len() == free_rank(fixed@, n as int),
            forall|j: int| 0 <= j < k ==> amounts@[j] == spliced(fixed@, free_amounts@)[j],
        decreases n - k,
    {
        proof {
            free_rank_grows(fixed@, k as int, n as int);
        }
        match fixed[k] {
            Some(amount) => {
                amounts.push(amount);
            },
            None => {
                amounts.push(free_amounts[next]);
                next += 1;
            },
        }
        k += 1;
    }
    assert(amounts@ =~= spliced(fixed@, free_amounts@));
    let pairs = pair_up(sorted_guests, &amounts);
    proof {
        let shares = pairs.deep_view();
        assert(guests.take(pairs.len() as int) =~= guests);
        assert(amounts@.take(pairs.len() as int) =~= amounts@);
        assert(amounts_of(shares) =~= amounts@);
        assert(guests_of(shares) =~= guests);
        settle_within_budget(guests, available, all_fixed);
        settle_respects_ranges(guests, available, all_fixed);
    }
    Ok(pairs)
}

/// A plain auction round: `solve` with no position pinned.
pub fn auction<'a>(sorted_guests: &Vec<&'a Guest>, available: u64) -> (outcome: Result<
    Vec<(&'a Guest, u64)>,
    AllocError,
>)
    ensures
        ({
            let guests = sorted_guests.deep_view();
            match outcome {
                Ok(pairs) => {
                    &&& all_well_formed(guests)
                    &&& amounts_of(pairs.deep_view()) == search(guests, available)
                    &&& guests_of(pairs.deep_view()) == guests
                    &&& pairs.len() == sorted_guests.len()
                    &&& total(amounts_of(pairs.deep_view())) <= available
                    &&& forall|position: int|
                        0 <= position < guests.len() ==> !(#[trigger] guests[position]).forbids(
                            pairs.deep_view()[position].1 as int,
                        )
                },
                Err(reason) => reason == AllocError::MalformedRanges && !all_well_formed(guests),
            }
        }),
{
    let pinned: HashMap<u64, u64> = HashMap::new();
    let outcome = solve(sorted_guests, available, &pinned);
    proof {
        let guests = sorted_guests.deep_view();
        let fixed = fixed_by(pinned@, guests.len());
        all_free_is_plain_search(guests, available, fixed);
    }
    outcome
}

/// With no position fixed, a round of well-formed guests is the plain search:
/// nothing is taken off the budget and nothing is spliced in.
pub proof fn all_free_is_plain_search(
    guests: Seq<GuestModel>,
    available: u64,
    fixed: Seq<Option<u64>>,
)
    requires
        fixed.len() == guests.len(),
        forall|position: int| 0 <= position < fixed.len() ==> fixed[position] is None,
    ensures
        fixed_total(fixed) == 0,
        free_guests(guests, fixed) == guests,
        all_well_formed(guests) ==> settle(guests, available, fixed) == Ok::<
            Seq<u64>,
            AllocError,
        >(search(guests, available)),
        !all_well_formed(guests) ==> settle(guests, available, fixed) == Err::<
            Seq<u64>,
            AllocError,
        >(AllocError::MalformedRanges),
{
    all_free_lemma(guests, fixed, fixed.len() as int);
    assert(pins_allowed(guests, fixed));
    assert(fixed.take(fixed.len() as int) =~= fixed);
    assert(free_guests(guests, fixed) =~= guests);
    search_covers_all(guests, available);
    assert(spliced(fixed, search(guests, available)) =~= search(guests, available));
}

/// Where the first `length` positions are free, they hold the first `length`
/// guests, each at its own position, and nothing is fixed.
proof fn all_free_lemma(guests: Seq<GuestModel>, fixed: Seq<Option<u64>>, length: int)
    requires
        0 <= length <= fixed.len() <= guests.len(),
        forall|position: int| 0 <= position < fixed.len() ==> fixed[position] is None,
    ensures
        fixed_total(fixed.take(length)) == 0,
        free_guests(guests, fixed.take(length)) == guests.take(length),
        forall|position: int| 0 <= position <= length ==> free_rank(fixed, position) == position,
    decreases length,
{
    if length > 0 {
        all_free_lemma(guests, fixed, length - 1);
        assert(fixed.take(length).drop_last() =~= fixed.take(length - 1));
        assert(guests.take(length - 1).push(guests[length - 1]) =~= guests.take(length));
        assert(fixed[length - 1] is None);
        assert(free_rank(fixed, length - 1) == length - 1);
        assert(free_rank(fixed, length) == length);
    } else {
        assert(free_guests(guests, fixed.take(0)) =~= guests.take(0));
    }
}

} // verus!
