//! What holds of every auction round.

use crate::allocation::amounts_of;
use crate::allocation::guests_of;
use crate::allocation::naive_amounts;
use crate::allocation::paired;
use crate::allocation::total;
use crate::allocation::welfare_of;
use crate::allocation::Shares;
use crate::auction::all_free_is_plain_search;
use crate::auction::fixed_total;
use crate::auction::free_guests;
use crate::auction::free_guests_count;
use crate::auction::free_guests_stay_well_formed;
use crate::auction::free_rank;
use crate::auction::free_rank_grows;
use crate::auction::free_rank_of_prefix;
use crate::auction::settle;
use crate::auction::spliced;
use crate::error::AllocError;
use crate::guest::all_well_formed;
use crate::guest::GuestModel;
use crate::priority::prices_descend;
use crate::solver::search;
use crate::solver::search_covers_all;
use crate::violation::no_violation_means_none_forbidden;
use crate::violation::violations_of;
use crate::welfare_laws::more_resource_is_worth_no_less;
use crate::welfare_laws::worth;
use crate::welfare_laws::worth_by_last;
use vstd::prelude::*;

verus! {

/// Whether no position is fixed.
pub open spec fn all_free(fixed: Seq<Option<u64>>) -> bool {
    forall|position: int| 0 <= position < fixed.len() ==> fixed[position] is None
}

/// What the guests at the fixed positions pay for their fixed amounts.
pub open spec fn fixed_worth(guests: Seq<GuestModel>, fixed: Seq<Option<u64>>) -> nat
    decreases fixed.len(),
{
    if fixed.len() == 0 {
        0
    } else {
        fixed_worth(guests, fixed.drop_last()) + match fixed.last() {
            Some(amount) => (guests[fixed.len() - 1].unit_price * amount) as nat,
            None => 0,
        }
    }
}

/// A round in which nothing is pinned and the greedy baseline violates no
/// range returns the greedy baseline.
pub proof fn round_without_violation_is_naive(
    guests: Seq<GuestModel>,
    available: u64,
    fixed: Seq<Option<u64>>,
)
    requires
        all_well_formed(guests),
        fixed.len() == guests.len(),
        all_free(fixed),
        violations_of(paired(guests, naive_amounts(guests, available))).len() == 0,
    ensures
        settle(guests, available, fixed) == Ok::<Seq<u64>, AllocError>(
            naive_amounts(guests, available),
        ),
{
    all_free_is_plain_search(guests, available, fixed);
}

/// The same round has the same outcome: two allocations that `solve` may
/// return for one round are equal, and so is their welfare.
pub proof fn same_round_same_outcome(
    guests: Seq<GuestModel>,
    available: u64,
    fixed: Seq<Option<u64>>,
    first: Shares,
    second: Shares,
)
    requires
        settle(guests, available, fixed) == Ok::<Seq<u64>, AllocError>(amounts_of(first)),
        settle(guests, available, fixed) == Ok::<Seq<u64>, AllocError>(amounts_of(second)),
        guests_of(first) == guests,
        guests_of(second) == guests,
    ensures
        first == second,
        welfare_of(first) == welfare_of(second),
{
    assert(guests_of(first).len() == first.len());
    assert(guests_of(second).len() == second.len());
    assert forall|k: int| 0 <= k < first.len() implies first[k] == second[k] by {
        assert(guests_of(first)[k] == first[k].0);
        assert(guests_of(second)[k] == second[k].0);
        assert(amounts_of(first)[k] == first[k].1);
        assert(amounts_of(second)[k] == second[k].1);
    }
    assert(first =~= second);
}

/// With nothing to hand out the greedy baseline gives nothing to anyone, and
/// so does the search, whoever the guests are; that is worth nothing.
pub proof fn nothing_available_nothing_given(guests: Seq<GuestModel>)
    ensures
        search(guests, 0) == Seq::new(guests.len(), |k: int| 0u64),
        search(guests, 0) == naive_amounts(guests, 0),
        total(search(guests, 0)) == 0,
        worth(guests, search(guests, 0)) == 0,
{
    let nothing = Seq::new(guests.len(), |k: int| 0u64);
    let greedy = naive_amounts(guests, 0);
    assert(greedy =~= nothing);
    let shares = paired(guests, greedy);
    assert forall|position: int| 0 <= position < shares.len() implies !(
    #[trigger] shares[position]).0.forbids(shares[position].1 as int) by {}
    no_violation_means_none_forbidden(shares);
    worth_of_nothing(guests, nothing);
    total_of_nothing(nothing);
}

/// A round with nothing to hand out and nothing pinned gives every
/// well-formed guest nothing.
pub proof fn round_with_nothing_available(guests: Seq<GuestModel>, fixed: Seq<Option<u64>>)
    requires
        all_well_formed(guests),
        fixed.len() == guests.len(),
        all_free(fixed),
    ensures
        settle(guests, 0, fixed) == Ok::<Seq<u64>, AllocError>(
            Seq::new(guests.len(), |k: int| 0u64),
        ),
        worth(guests, settle(guests, 0, fixed)->Ok_0) == 0,
{
    all_free_is_plain_search(guests, 0, fixed);
    nothing_available_nothing_given(guests);
}

/// Amounts that are all zero are worth nothing.
proof fn worth_of_nothing(guests: Seq<GuestModel>, amounts: Seq<u64>)
    requires
        amounts.len() == guests.len(),
        forall|k: int| 0 <= k < amounts.len() ==> amounts[k] == 0,
    ensures
        worth(guests, amounts) == 0,
    decreases guests.len(),
{
    if guests.len() > 0 {
        worth_by_last(guests, amounts);
        worth_of_nothing(guests.drop_last(), amounts.drop_last());
        assert(guests.last().unit_price * 0 == 0) by (nonlinear_arith);
    }
}

/// Amounts that are all zero sum to zero.
proof fn total_of_nothing(amounts: Seq<u64>)
    requires
        forall|k: int| 0 <= k < amounts.len() ==> amounts[k] == 0,
    ensures
        total(amounts) == 0,
    decreases amounts.len(),
{
    if amounts.len() > 0 {
        total_of_nothing(amounts.drop_last());
    }
}

/// The welfare of a round is what the fixed positions pay and what the free
/// guests pay.
pub(crate) proof fn spliced_worth(
    guests: Seq<GuestModel>,
    fixed: Seq<Option<u64>>,
    free_amounts: Seq<u64>,
)
    requires
        fixed.len() <= guests.len(),
        free_amounts.len() == free_rank(fixed, fixed.len() as int),
    ensures
        worth(guests.take(fixed.len() as int), spliced(fixed, free_amounts)) == fixed_worth(
            guests,
            fixed,
        ) + worth(free_guests(guests, fixed), free_amounts),
    decreases fixed.len(),
{
    let count = fixed.len() as int;
    if count > 0 {
        let last = count - 1;
        let shorter = fixed.drop_last();
        let all = spliced(fixed, free_amounts);
        free_rank_of_prefix(fixed, last, last);
        let free_before = if fixed[last] is None {
            free_amounts.drop_last()
        } else {
            free_amounts
        };
        assert(all.drop_last() =~= spliced(shorter, free_before)) by {
            assert forall|position: int| 0 <= position < last implies all[position] == spliced(
                shorter,
                free_before,
            )[position] by {
                free_rank_of_prefix(fixed, last, position);
                free_rank_grows(fixed, position, last);
            }
        }
        spliced_worth(guests, shorter, free_before);
        assert(guests.take(count).drop_last() =~= guests.take(last));
        worth_by_last(guests.take(count), all);
        free_guests_count(guests, fixed);
        if fixed[last] is None {
            let free = free_guests(guests, fixed);
            assert(free.drop_last() =~= free_guests(guests, shorter));
            worth_by_last(free, free_amounts);
        }
    } else {
        assert(paired(guests.take(0), spliced(fixed, free_amounts)) =~= Seq::empty());
        assert(paired(free_guests(guests, fixed), free_amounts) =~= Seq::empty());
    }
}

/// The free guests of a list with descending bids have descending bids, and
/// none bids less than a guest behind the positions looked at.
pub(crate) proof fn free_guests_keep_descending(guests: Seq<GuestModel>, fixed: Seq<Option<u64>>)
    requires
        prices_descend(guests),
        fixed.len() <= guests.len(),
    ensures
        prices_descend(free_guests(guests, fixed)),
        forall|rank: int, position: int|
            0 <= rank < free_guests(guests, fixed).len() && fixed.len() <= position < guests.len()
                ==> (#[trigger] free_guests(guests, fixed)[rank]).unit_price >= (
            #[trigger] guests[position]).unit_price,
    decreases fixed.len(),
{
    if fixed.len() > 0 {
        let last = fixed.len() - 1;
        let before = free_guests(guests, fixed.drop_last());
        let free = free_guests(guests, fixed);
        free_guests_keep_descending(guests, fixed.drop_last());
        assert forall|rank: int, position: int|
            0 <= rank < free.len() && fixed.len() <= position < guests.len() implies (
        #[trigger] free[rank]).unit_price >= (#[trigger] guests[position]).unit_price by {
            if rank < before.len() {
                assert(before[rank].unit_price >= guests[position].unit_price);
            } else {
                assert(guests[last].unit_price >= guests[position].unit_price);
            }
        }
        assert forall|i: int, j: int| 0 <= i < j < free.len() implies (
        #[trigger] free[i]).unit_price >= (#[trigger] free[j]).unit_price by {
            if j < before.len() {
                assert(before[i].unit_price >= before[j].unit_price);
            } else {
                assert(before[i].unit_price >= guests[last].unit_price);
            }
        }
    }
}

/// What a round is worth: what the pinned guests pay for their pinned amounts,
/// and what a round of the free guests alone is worth with the rest of the
/// budget.
pub proof fn round_worth_splits(guests: Seq<GuestModel>, available: u64, fixed: Seq<Option<u64>>)
    requires
        fixed.len() == guests.len(),
        settle(guests, available, fixed) is Ok,
    ensures
        worth(guests, settle(guests, available, fixed)->Ok_0) == fixed_worth(guests, fixed)
            + worth(
            free_guests(guests, fixed),
            search(free_guests(guests, fixed), (available - fixed_total(fixed)) as u64),
        ),
{
    let free = free_guests(guests, fixed);
    let rest = (available - fixed_total(fixed)) as u64;
    free_guests_count(guests, fixed);
    search_covers_all(free, rest);
    spliced_worth(guests, fixed, search(free, rest));
    assert(guests.take(fixed.len() as int) =~= guests);
}

/// More resource never lowers the welfare of a round: with the same guests in
/// descending order of their bids and the same pinned amounts, a round with
/// `more` to hand out succeeds where one with `less` does, and is worth no
/// less.
pub proof fn more_resource_never_lowers_welfare(
    guests: Seq<GuestModel>,
    less: u64,
    more: u64,
    fixed: Seq<Option<u64>>,
)
    requires
        prices_descend(guests),
        fixed.len() == guests.len(),
        less <= more,
        settle(guests, less, fixed) is Ok,
    ensures
        settle(guests, more, fixed) is Ok,
        worth(guests, settle(guests, less, fixed)->Ok_0) <= worth(
            guests,
            settle(guests, more, fixed)->Ok_0,
        ),
{
    let free = free_guests(guests, fixed);
    let rest_of_less = (less - fixed_total(fixed)) as u64;
    let rest_of_more = (more - fixed_total(fixed)) as u64;
    free_guests_stay_well_formed(guests, fixed);
    free_guests_keep_descending(guests, fixed);
    more_resource_is_worth_no_less(free, rest_of_less, rest_of_more);
    round_worth_splits(guests, less, fixed);
    round_worth_splits(guests, more, fixed);
}

} // verus!
