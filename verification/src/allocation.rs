//! Allocations, what they are worth, and the greedy baseline.

use crate::error::AllocError;
use crate::guest::Guest;
use crate::guest::GuestModel;
use vstd::prelude::*;

verus! {

/// An allocation: every guest beside the amount that it receives.
pub type Shares = Seq<(GuestModel, u64)>;

/// The guests of `guests`, each beside its amount in `amounts`.
pub open spec fn paired(guests: Seq<GuestModel>, amounts: Seq<u64>) -> Shares {
    Seq::new(guests.len(), |k: int| (guests[k], amounts[k]))
}

/// The sum of the amounts.
pub open spec fn total(amounts: Seq<u64>) -> nat
    decreases amounts.len(),
{
    if amounts.len() == 0 {
        0
    } else {
        total(amounts.drop_last()) + amounts.last() as nat
    }
}

/// The amounts of an allocation, in its order.
pub open spec fn amounts_of(shares: Shares) -> Seq<u64> {
    Seq::new(shares.len(), |k: int| shares[k].1)
}

/// The guests of an allocation, in its order.
pub open spec fn guests_of(shares: Shares) -> Seq<GuestModel> {
    Seq::new(shares.len(), |k: int| shares[k].0)
}

/// The social welfare of an allocation: over all guests, the unit price times
/// the amount received.
pub open spec fn welfare_of(shares: Shares) -> nat
    decreases shares.len(),
{
    if shares.len() == 0 {
        0
    } else {
        welfare_of(shares.drop_last()) + (shares.last().0.unit_price * shares.last().1) as nat
    }
}

/// What the first `k` guests can use together.
pub open spec fn demand_before(guests: Seq<GuestModel>, k: int) -> nat
    decreases k,
{
    if k <= 0 {
        0
    } else {
        demand_before(guests, k - 1) + guests[k - 1].upper_bound() as nat
    }
}

/// What is left of `available` once the first `k` guests were served up to
/// what they can use.
pub open spec fn left_for(guests: Seq<GuestModel>, available: u64, k: int) -> u64 {
    if demand_before(guests, k) >= available {
        0
    } else {
        (available - demand_before(guests, k)) as u64
    }
}

/// The greedy amount of guest `k`: all that is left for it, up to what it can
/// use.
pub open spec fn naive_share(guests: Seq<GuestModel>, available: u64, k: int) -> u64 {
    if left_for(guests, available, k) <= guests[k].upper_bound() {
        left_for(guests, available, k)
    } else {
        guests[k].upper_bound()
    }
}

/// The greedy baseline: the guests are served in order, each up to what it can
/// use, until nothing is left.
pub open spec fn naive_amounts(guests: Seq<GuestModel>, available: u64) -> Seq<u64> {
    Seq::new(guests.len(), |k: int| naive_share(guests, available, k))
}

/// Whether no guest has more than it can use.
pub open spec fn within_ceilings(guests: Seq<GuestModel>, amounts: Seq<u64>) -> bool {
    forall|k: int| 0 <= k < guests.len() ==> #[trigger] amounts[k] <= guests[k].upper_bound()
}

/// The greedy baseline hands the first `k` guests what they can use together,
/// or all there is.
pub proof fn naive_total_upto(guests: Seq<GuestModel>, available: u64, k: int)
    requires
        0 <= k <= guests.len(),
    ensures
        total(naive_amounts(guests, available).take(k)) + left_for(guests, available, k)
            == available,
    decreases k,
{
    let naive = naive_amounts(guests, available);
    if k > 0 {
        naive_total_upto(guests, available, k - 1);
        assert(naive.take(k).drop_last() =~= naive.take(k - 1));
    }
}

/// The greedy baseline never hands out more than there is.
pub proof fn naive_within_budget(guests: Seq<GuestModel>, available: u64)
    ensures
        total(naive_amounts(guests, available)) <= available,
{
    let naive = naive_amounts(guests, available);
    naive_total_upto(guests, available, guests.len() as int);
    assert(naive.take(guests.len() as int) =~= naive);
}

/// Serves the guests in their order: each receives what is left of
/// `available`, up to its usable upper bound. Forbidden ranges below that
/// bound are not looked at.
pub fn naive_allocate(sorted_guests: &Vec<&Guest>, available: u64) -> (amounts: Vec<u64>)
    ensures
        amounts@ == naive_amounts(sorted_guests.deep_view(), available),
        total(amounts@) <= available,
        within_ceilings(sorted_guests.deep_view(), amounts@),
{
    let ghost guests = sorted_guests.deep_view();
    let n = sorted_guests.len();
    let mut amounts: Vec<u64> = Vec::new();
    let mut remaining: u64 = available;
    let mut k: usize = 0;
    while k < n
        invariant
            guests == sorted_guests.deep_view(),
            n == sorted_guests.len(),
            k <= n,
            amounts.len() == k,
            remaining == left_for(guests, available, k as int),
            forall|j: int| 0 <= j < k ==> amounts[j] == naive_share(guests, available, j),
        decreases n - k,
    {
        let bound = sorted_guests[k].upper_bound();
        let granted = if remaining <= bound {
            remaining
        } else {
            bound
        };
        assert(guests[k as int] == sorted_guests[k as int]@);
        assert(demand_before(guests, k + 1) == demand_before(guests, k as int) + bound);
        amounts.push(granted);
        remaining = remaining - granted;
        k += 1;
    }
    assert(amounts@ =~= naive_amounts(guests, available));
    proof {
        naive_within_budget(guests, available);
    }
    amounts
}

/// Puts every guest beside its amount, as far as both lists reach.
pub fn pair_up<'a>(guests: &Vec<&'a Guest>, amounts: &Vec<u64>) -> (pairs: Vec<(&'a Guest, u64)>)
    ensures
        pairs.len() == guests.len() || pairs.len() == amounts.len(),
        pairs.len() <= guests.len(),
        pairs.len() <= amounts.len(),
        pairs.deep_view() == paired(
            guests.deep_view().take(pairs.len() as int),
            amounts@.take(pairs.len() as int),
        ),
{
    let n = if guests.len() <= amounts.len() {
        guests.len()
    } else {
        amounts.len()
    };
    let mut pairs: Vec<(&'a Guest, u64)> = Vec::new();
    let mut k: usize = 0;
    while k < n
        invariant
            n <= guests.len(),
            n <= amounts.len(),
            k <= n,
            pairs.len() == k,
            forall|j: int| 0 <= j < k ==> #[trigger] pairs@[j] == (guests@[j], amounts@[j]),
        decreases n - k,
    {
        pairs.push((guests[k], amounts[k]));
        k += 1;
    }
    assert(pairs.deep_view() =~= paired(
        guests.deep_view().take(n as int),
        amounts@.take(n as int),
    ));
    pairs
}

/// The welfare of a part of an allocation is no more than that of the whole.
pub proof fn welfare_of_prefix(shares: Shares, k: int)
    requires
        0 <= k <= shares.len(),
    ensures
        welfare_of(shares.take(k)) <= welfare_of(shares),
    decreases shares.len() - k,
{
    if k == shares.len() {
        assert(shares.take(k) =~= shares);
    } else {
        welfare_of_prefix(shares, k + 1);
        assert(shares.take(k + 1).drop_last() =~= shares.take(k));
    }
}

/// No unit is worth more than the largest price that can be bid: an allocation
/// is worth at most that price times all that it hands out.
pub proof fn welfare_within_total(shares: Shares)
    ensures
        welfare_of(shares) <= u64::MAX * total(amounts_of(shares)),
    decreases shares.len(),
{
    if shares.len() > 0 {
        let price = shares.last().0.unit_price;
        let amount = shares.last().1;
        welfare_within_total(shares.drop_last());
        assert(amounts_of(shares).drop_last() =~= amounts_of(shares.drop_last()));
        let before = total(amounts_of(shares.drop_last()));
        assert(price * amount <= u64::MAX * amount) by (nonlinear_arith)
            requires
                price <= u64::MAX,
                0 <= amount,
        ;
        assert(u64::MAX * before + u64::MAX * amount == u64::MAX * (before + amount))
            by (nonlinear_arith);
    }
}

/// The social welfare of an allocation: over all guests, the unit price times
/// the amount received. It fails where that sum is no quantity.
pub fn welfare(allocation_pairs: &Vec<(&Guest, u64)>) -> (worth: Result<u64, AllocError>)
    ensures
        worth matches Ok(sum) ==> sum == welfare_of(allocation_pairs.deep_view()),
        worth matches Err(reason) ==> reason == AllocError::WelfareOverflow,
        worth is Ok <==> welfare_of(allocation_pairs.deep_view()) <= u64::MAX,
{
    let ghost shares = allocation_pairs.deep_view();
    let n = allocation_pairs.len();
    let mut sum: u64 = 0;
    let mut k: usize = 0;
    while k < n
        invariant
            shares == allocation_pairs.deep_view(),
            n == allocation_pairs.len(),
            k <= n,
            sum == welfare_of(shares.take(k as int)),
        decreases n - k,
    {
        let guest = allocation_pairs[k].0;
        let amount = allocation_pairs[k].1;
        proof {
            assert(shares.take(k + 1).drop_last() =~= shares.take(k as int));
            assert(shares[k as int] == (guest@, amount));
            welfare_of_prefix(shares, k + 1);
        }
        let worth = match guest.mem_unit_price.checked_mul(amount) {
            Some(worth) => worth,
            None => {
                return Err(AllocError::WelfareOverflow);
            },
        };
        sum = match sum.checked_add(worth) {
            Some(sum) => sum,
            None => {
                return Err(AllocError::WelfareOverflow);
            },
        };
        k += 1;
    }
    assert(shares.take(n as int) =~= shares);
    Ok(sum)
}

/// The welfare of an allocation that hands out no more than a quantity can
/// hold, in arithmetic wide enough for every such allocation.
pub(crate) fn wide_welfare(allocation_pairs: &Vec<(&Guest, u64)>) -> (worth: u128)
    requires
        total(amounts_of(allocation_pairs.deep_view())) <= u64::MAX,
    ensures
        worth == welfare_of(allocation_pairs.deep_view()),
{
    let ghost shares = allocation_pairs.deep_view();
    let n = allocation_pairs.len();
    let mut sum: u128 = 0;
    let mut k: usize = 0;
    proof {
        welfare_within_total(shares);
        assert(u64::MAX * total(amounts_of(shares)) <= u64::MAX * u64::MAX) by (nonlinear_arith)
            requires
                total(amounts_of(shares)) <= u64::MAX,
        ;
    }
    while k < n
        invariant
            shares == allocation_pairs.deep_view(),
            n == allocation_pairs.len(),
            k <= n,
            sum == welfare_of(shares.take(k as int)),
            welfare_of(shares) <= u64::MAX * u64::MAX,
        decreases n - k,
    {
        let guest = allocation_pairs[k].0;
        let amount = allocation_pairs[k].1;
        proof {
            assert(shares.take(k + 1).drop_last() =~= shares.take(k as int));
            assert(shares[k as int] == (guest@, amount));
            welfare_of_prefix(shares, k + 1);
            assert(guest.mem_unit_price * amount <= u64::MAX * u64::MAX) by (nonlinear_arith)
                requires
                    guest.mem_unit_price <= u64::MAX,
                    amount <= u64::MAX,
            ;
        }
        sum = sum + (guest.mem_unit_price as u128) * (amount as u128);
        k += 1;
    }
    assert(shares.take(n as int) =~= shares);
    sum
}

} // verus!
