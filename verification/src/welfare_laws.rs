//! What the search is worth: bounds on its welfare, and why more resource
//! never lowers it.

use crate::allocation::demand_before;
use crate::allocation::left_for;
use crate::allocation::naive_amounts;
use crate::allocation::naive_share;
use crate::allocation::naive_total_upto;
use crate::allocation::paired;
use crate::allocation::total;
use crate::allocation::welfare_of;
use crate::allocation::within_ceilings;
use crate::allocation::welfare_of_prefix;
use crate::guest::all_well_formed;
use crate::guest::others_stay_well_formed;
use crate::guest::one_range_forbids;
use crate::guest::violation_is_below_upper_bound;
use crate::guest::GuestModel;
use crate::guest::Range;
use crate::solver::first_naive_violation;
use crate::solver::search;
use crate::solver::search_covers_all;
use crate::solver::search_within_budget;
use crate::violation::first_violation_is_earliest;
use crate::violation::violations_are_complete;
use crate::violation::violations_of;
use crate::priority::prices_descend;
use vstd::prelude::*;

verus! {

/// The welfare of the guests with these amounts.
pub open spec fn worth(guests: Seq<GuestModel>, amounts: Seq<u64>) -> nat {
    welfare_of(paired(guests, amounts))
}

/// Whether no amount of `smaller` exceeds the amount of `larger` at its place.
pub open spec fn nowhere_more(smaller: Seq<u64>, larger: Seq<u64>) -> bool {
    &&& smaller.len() == larger.len()
    &&& forall|k: int| 0 <= k < smaller.len() ==> #[trigger] smaller[k] <= larger[k]
}

/// The welfare of the first `count` guests where each has all it can use.
pub open spec fn served_in_full(guests: Seq<GuestModel>, count: int) -> nat
    decreases count,
{
    if count <= 0 {
        0
    } else {
        served_in_full(guests, count - 1) + (guests[count - 1].unit_price * guests[count
            - 1].upper_bound()) as nat
    }
}

/// The last guest adds its price times its amount to the welfare of those
/// before it.
pub(crate) proof fn worth_by_last(guests: Seq<GuestModel>, amounts: Seq<u64>)
    requires
        guests.len() > 0,
        amounts.len() == guests.len(),
    ensures
        worth(guests, amounts) == worth(guests.drop_last(), amounts.drop_last())
            + guests.last().unit_price * amounts.last(),
{
    assert(paired(guests, amounts).drop_last() =~= paired(guests.drop_last(), amounts.drop_last()));
}

/// A guest put in at `position` adds its price times its amount to the
/// welfare of the others.
pub(crate) proof fn worth_after_insert(
    guests: Seq<GuestModel>,
    others_amounts: Seq<u64>,
    position: int,
    amount: u64,
)
    requires
        0 <= position < guests.len(),
        others_amounts.len() == guests.len() - 1,
    ensures
        worth(guests, others_amounts.insert(position, amount)) == worth(
            guests.remove(position),
            others_amounts,
        ) + guests[position].unit_price * amount,
    decreases guests.len(),
{
    let amounts = others_amounts.insert(position, amount);
    worth_by_last(guests, amounts);
    if position == guests.len() - 1 {
        assert(amounts.drop_last() =~= others_amounts);
        assert(guests.drop_last() =~= guests.remove(position));
    } else {
        let others = guests.remove(position);
        assert(amounts.drop_last() =~= others_amounts.drop_last().insert(position, amount));
        assert(guests.drop_last().remove(position) =~= others.drop_last());
        worth_after_insert(guests.drop_last(), others_amounts.drop_last(), position, amount);
        worth_by_last(others, others_amounts);
    }
}

/// Where amounts grow and every price is at least `price`, the welfare grows
/// by at least `price` for each unit added.
pub proof fn worth_gain(guests: Seq<GuestModel>, smaller: Seq<u64>, larger: Seq<u64>, price: u64)
    requires
        smaller.len() == guests.len(),
        nowhere_more(smaller, larger),
        forall|k: int| 0 <= k < guests.len() ==> price <= (#[trigger] guests[k]).unit_price,
    ensures
        total(smaller) <= total(larger),
        worth(guests, smaller) + price * (total(larger) - total(smaller)) <= worth(guests, larger),
    decreases guests.len(),
{
    if guests.len() > 0 {
        worth_by_last(guests, smaller);
        worth_by_last(guests, larger);
        assert(nowhere_more(smaller.drop_last(), larger.drop_last()));
        worth_gain(guests.drop_last(), smaller.drop_last(), larger.drop_last(), price);
        let own = guests.last().unit_price;
        let low = smaller.last();
        let high = larger.last();
        let gain_before = total(larger.drop_last()) - total(smaller.drop_last());
        assert(own * low + price * (high - low) <= own * high) by (nonlinear_arith)
            requires
                price <= own,
                low <= high,
        ;
        assert(price * gain_before + price * (high - low) == price * (gain_before + (high - low)))
            by (nonlinear_arith);
    } else {
        assert(price * 0 == 0) by (nonlinear_arith);
    }
}

/// Where no amount shrinks, the welfare does not shrink.
pub proof fn worth_grows_with_amounts(
    guests: Seq<GuestModel>,
    smaller: Seq<u64>,
    larger: Seq<u64>,
)
    requires
        smaller.len() == guests.len(),
        nowhere_more(smaller, larger),
    ensures
        worth(guests, smaller) <= worth(guests, larger),
{
    worth_gain(guests, smaller, larger, 0);
    assert(0 * (total(larger) - total(smaller)) == 0) by (nonlinear_arith);
}

/// What the first `count` guests can use depends on those guests alone.
pub(crate) proof fn demand_of_same_guests(
    first: Seq<GuestModel>,
    second: Seq<GuestModel>,
    count: int,
)
    requires
        forall|k: int| 0 <= k < count ==> first[k] == second[k],
    ensures
        demand_before(first, count) == demand_before(second, count),
        served_in_full(first, count) == served_in_full(second, count),
    decreases count,
{
    if count > 0 {
        demand_of_same_guests(first, second, count - 1);
    }
}

/// More guests can use no less.
pub(crate) proof fn demand_grows(guests: Seq<GuestModel>, fewer: int, more: int)
    requires
        fewer <= more,
    ensures
        demand_before(guests, fewer) <= demand_before(guests, more),
    decreases more,
{
    if fewer < more && more > 0 {
        demand_grows(guests, fewer, more - 1);
    }
}

/// The greedy baseline gives no guest less where there is more to hand out.
pub proof fn naive_grows_with_budget(guests: Seq<GuestModel>, less: u64, more: u64)
    requires
        less <= more,
    ensures
        nowhere_more(naive_amounts(guests, less), naive_amounts(guests, more)),
{
}

/// The greedy baseline of a shorter list is that of the whole list, cut short.
pub(crate) proof fn naive_of_prefix(guests: Seq<GuestModel>, available: u64)
    requires
        guests.len() > 0,
    ensures
        naive_amounts(guests, available).drop_last() == naive_amounts(
            guests.drop_last(),
            available,
        ),
{
    let shorter = guests.drop_last();
    assert forall|k: int| 0 <= k < shorter.len() implies naive_share(guests, available, k)
        == naive_share(shorter, available, k) by {
        demand_of_same_guests(guests, shorter, k);
    }
    assert(naive_amounts(guests, available).drop_last() =~= naive_amounts(shorter, available));
}

/// Among guests whose bids descend, nothing beats the greedy baseline: an
/// allocation that gives no guest more than it can use, and hands out no more
/// than `available`, is worth no more than the greedy one.
pub proof fn naive_is_worth_most(guests: Seq<GuestModel>, amounts: Seq<u64>, available: u64)
    requires
        prices_descend(guests),
        amounts.len() == guests.len(),
        within_ceilings(guests, amounts),
        total(amounts) <= available,
    ensures
        worth(guests, amounts) <= worth(guests, naive_amounts(guests, available)),
    decreases guests.len(),
{
    if guests.len() > 0 {
        let last = guests.len() - 1;
        let shorter = guests.drop_last();
        let price = guests.last().unit_price;
        let given = amounts.last();
        let rest: u64 = (available - given) as u64;
        let greedy = naive_amounts(guests, available);
        let greedy_before = naive_amounts(shorter, available);
        let frugal_before = naive_amounts(shorter, rest);

        assert(prices_descend(shorter));
        assert(within_ceilings(shorter, amounts.drop_last())) by {
            assert forall|k: int| 0 <= k < shorter.len() implies #[trigger] amounts.drop_last()[k]
                <= shorter[k].upper_bound() by {
                assert(amounts[k] <= guests[k].upper_bound());
            }
        }
        naive_is_worth_most(shorter, amounts.drop_last(), rest);
        worth_by_last(guests, amounts);

        naive_of_prefix(guests, available);
        worth_by_last(guests, greedy);

        naive_grows_with_budget(shorter, rest, available);
        assert forall|k: int| 0 <= k < shorter.len() implies price <= (
        #[trigger] shorter[k]).unit_price by {
            assert(guests[k].unit_price >= guests[last].unit_price);
        }
        worth_gain(shorter, frugal_before, greedy_before, price);

        naive_total_upto(shorter, available, last);
        naive_total_upto(shorter, rest, last);
        assert(greedy_before.take(last) =~= greedy_before);
        assert(frugal_before.take(last) =~= frugal_before);
        demand_of_same_guests(guests, shorter, last);
        let gain = total(greedy_before) - total(frugal_before);
        let share = greedy.last();
        assert(amounts[last] <= guests[last].upper_bound());
        assert(given <= gain + share);
        assert(price * given <= price * gain + price * share) by (nonlinear_arith)
            requires
                given <= gain + share,
                0 <= price,
        ;
    }
}

/// The first finding against the greedy baseline, where there is one.
pub open spec fn first_finding(guests: Seq<GuestModel>, available: u64) -> (int, Range) {
    violations_of(paired(guests, naive_amounts(guests, available)))[0]
}

/// Whether the greedy baseline violates a range.
pub open spec fn naive_violates(guests: Seq<GuestModel>, available: u64) -> bool {
    violations_of(paired(guests, naive_amounts(guests, available))).len() > 0
}

/// The allocation of the branch that repairs the first finding with `amount`.
pub open spec fn branch(guests: Seq<GuestModel>, available: u64, amount: u64) -> Seq<u64> {
    let position = first_finding(guests, available).0;
    search(guests.remove(position), (available - amount) as u64).insert(position, amount)
}

/// Where the greedy baseline violates a range, the search is worth as much as
/// its better branch: that of the lower end, and that of the upper end where
/// the budget reaches it.
pub proof fn search_takes_the_better_branch(guests: Seq<GuestModel>, available: u64)
    requires
        naive_violates(guests, available),
    ensures
        ({
            let range = first_finding(guests, available).1;
            let low = worth(guests, branch(guests, available, range.min));
            let high = worth(guests, branch(guests, available, range.max));
            &&& worth(guests, search(guests, available)) >= low
            &&& range.max <= available ==> worth(guests, search(guests, available)) >= high
            &&& worth(guests, search(guests, available)) == low || (range.max <= available
                && worth(guests, search(guests, available)) == high)
        }),
{
    first_naive_violation(guests, available);
}

/// What a branch is worth: the repaired guest's price times its amount, and
/// what the search gets for the others from the rest of the budget.
pub(crate) proof fn branch_worth(guests: Seq<GuestModel>, available: u64, amount: u64)
    requires
        naive_violates(guests, available),
    ensures
        ({
            let position = first_finding(guests, available).0;
            let others = guests.remove(position);
            worth(guests, branch(guests, available, amount)) == worth(
                others,
                search(others, (available - amount) as u64),
            ) + guests[position].unit_price * amount
        }),
{
    first_naive_violation(guests, available);
    let position = first_finding(guests, available).0;
    let others = guests.remove(position);
    search_covers_all(others, (available - amount) as u64);
    worth_after_insert(guests, search(others, (available - amount) as u64), position, amount);
}

/// The first finding against the greedy baseline of well-formed guests is at
/// the guest with whom the budget runs out: it receives all that is left,
/// which is less than it can use, and both ends of the violated range are
/// within what it can use.
pub proof fn naive_violation_is_where_budget_ends(guests: Seq<GuestModel>, available: u64)
    requires
        all_well_formed(guests),
        naive_violates(guests, available),
    ensures
        ({
            let position = first_finding(guests, available).0;
            let range = first_finding(guests, available).1;
            let share = naive_share(guests, available, position);
            &&& 0 <= position < guests.len()
            &&& guests[position].ranges.contains(range)
            &&& range.forbids(share as int)
            &&& share == left_for(guests, available, position)
            &&& share == available - demand_before(guests, position)
            &&& share < guests[position].upper_bound()
            &&& range.max <= guests[position].upper_bound()
        }),
{
    first_naive_violation(guests, available);
    let position = first_finding(guests, available).0;
    let range = first_finding(guests, available).1;
    let ranges = guests[position].ranges;
    let which = choose|which: int| 0 <= which < ranges.len() && ranges[which] == range;
    assert(guests[position].well_formed());
    violation_is_below_upper_bound(
        ranges,
        which,
        naive_share(guests, available, position) as int,
    );
}

/// The search gives no guest more than it can use.
pub proof fn search_within_upper_bounds(guests: Seq<GuestModel>, available: u64)
    requires
        all_well_formed(guests),
    ensures
        within_ceilings(guests, search(guests, available)),
    decreases guests.len(),
{
    let found = search(guests, available);
    if naive_violates(guests, available) {
        naive_violation_is_where_budget_ends(guests, available);
        let position = first_finding(guests, available).0;
        let range = first_finding(guests, available).1;
        let others = guests.remove(position);
        let budget = if found[position] == range.min {
            (available - range.min) as u64
        } else {
            (available - range.max) as u64
        };
        let sub = search(others, budget);
        search_covers_all(others, (available - range.min) as u64);
        if range.max <= available {
            search_covers_all(others, (available - range.max) as u64);
        }
        assert(found == sub.insert(position, found[position]));
        others_stay_well_formed(guests, position);
        search_within_upper_bounds(others, budget);
        assert forall|k: int| 0 <= k < guests.len() implies #[trigger] found[k]
            <= guests[k].upper_bound() by {
            if k < position {
                assert(sub[k] <= others[k].upper_bound());
            } else if k > position {
                assert(sub[k - 1] <= others[k - 1].upper_bound());
            }
        }
    }
}

/// Where the budget covers what the first `count` guests can use, the greedy
/// baseline serves each of them in full.
pub proof fn naive_serves_covered_guests(guests: Seq<GuestModel>, available: u64, count: int)
    requires
        0 <= count <= guests.len(),
        demand_before(guests, count) <= available,
    ensures
        forall|k: int|
            0 <= k < count ==> #[trigger] naive_share(guests, available, k)
                == guests[k].upper_bound(),
        welfare_of(paired(guests, naive_amounts(guests, available)).take(count)) == served_in_full(
            guests,
            count,
        ),
        served_in_full(guests, count) <= worth(guests, naive_amounts(guests, available)),
    decreases count,
{
    let shares = paired(guests, naive_amounts(guests, available));
    if count > 0 {
        demand_grows(guests, count - 1, count);
        naive_serves_covered_guests(guests, available, count - 1);
        assert(shares.take(count).drop_last() =~= shares.take(count - 1));
    }
    welfare_of_prefix(shares, count);
}

/// Where the budget covers what the first `count` guests can use, the search
/// is worth at least what these guests pay when served in full.
pub proof fn search_serves_covered_guests(guests: Seq<GuestModel>, available: u64, count: int)
    requires
        all_well_formed(guests),
        0 <= count <= guests.len(),
        demand_before(guests, count) <= available,
    ensures
        served_in_full(guests, count) <= worth(guests, search(guests, available)),
    decreases guests.len(),
{
    if naive_violates(guests, available) {
        naive_violation_is_where_budget_ends(guests, available);
        let position = first_finding(guests, available).0;
        let range = first_finding(guests, available).1;
        let others = guests.remove(position);
        let rest = (available - range.min) as u64;
        if position < count {
            demand_grows(guests, position + 1, count);
        }
        demand_grows(guests, count, position);
        demand_of_same_guests(guests, others, count);
        others_stay_well_formed(guests, position);
        search_serves_covered_guests(others, rest, count);
        branch_worth(guests, available, range.min);
        search_takes_the_better_branch(guests, available);
    } else {
        naive_serves_covered_guests(guests, available, count);
    }
}

/// Where the guests behind `position` receive nothing and no guest receives
/// more than it can use, the first `count` shares are worth no more than the
/// guests before `position` served in full and what the guest at `position`
/// pays.
proof fn worth_up_to_last_served(
    guests: Seq<GuestModel>,
    amounts: Seq<u64>,
    position: int,
    count: int,
)
    requires
        0 <= position < guests.len(),
        0 <= count <= guests.len(),
        amounts.len() == guests.len(),
        within_ceilings(guests, amounts),
        forall|k: int| position < k < guests.len() ==> amounts[k] == 0,
    ensures
        welfare_of(paired(guests, amounts).take(count)) <= if count <= position {
            served_in_full(guests, count) as int
        } else {
            served_in_full(guests, position) + guests[position].unit_price * amounts[position]
        },
    decreases count,
{
    let shares = paired(guests, amounts);
    if count > 0 {
        worth_up_to_last_served(guests, amounts, position, count - 1);
        assert(shares.take(count).drop_last() =~= shares.take(count - 1));
        let price = guests[count - 1].unit_price;
        let amount = amounts[count - 1];
        let bound = guests[count - 1].upper_bound();
        assert(price * amount <= price * bound) by (nonlinear_arith)
            requires
                amount <= bound,
                0 <= price,
        ;
        if count - 1 > position {
            assert(price * 0 == 0) by (nonlinear_arith);
        }
    }
}

/// Where less is handed out and the range found with more still forbids the
/// amount at its position, the first finding is the same.
proof fn same_first_finding(guests: Seq<GuestModel>, less: u64, more: u64)
    requires
        all_well_formed(guests),
        less <= more,
        naive_violates(guests, more),
        first_finding(guests, more).1.forbids(
            naive_share(guests, less, first_finding(guests, more).0) as int,
        ),
    ensures
        naive_violates(guests, less),
        first_finding(guests, less) == first_finding(guests, more),
{
    let with_more = paired(guests, naive_amounts(guests, more));
    let with_less = paired(guests, naive_amounts(guests, less));
    naive_violation_is_where_budget_ends(guests, more);
    first_violation_is_earliest(with_more);
    let position = first_finding(guests, more).0;
    let range = first_finding(guests, more).1;
    let ranges = guests[position].ranges;
    let which = choose|which: int| 0 <= which < ranges.len() && ranges[which] == range;
    let share = naive_share(guests, less, position);
    naive_serves_covered_guests(guests, less, position);
    naive_serves_covered_guests(guests, more, position);
    assert(ranges[which].forbids(share as int));
    assert(with_less[position].0.forbids(with_less[position].1 as int));
    let at = violations_are_complete(with_less, guests.len() as int, position);
    first_violation_is_earliest(with_less);
    let found = first_finding(guests, less);
    if found.0 < position {
        let found_ranges = guests[found.0].ranges;
        let found_which = choose|found_which: int|
            0 <= found_which < found_ranges.len() && found_ranges[found_which] == found.1;
        assert(found_ranges[found_which].forbids(with_less[found.0].1 as int));
        assert(with_more[found.0].0.forbids(with_more[found.0].1 as int));
    }
    assert(found.0 == position);
    let other = choose|other: int| 0 <= other < ranges.len() && ranges[other] == found.1;
    assert(guests[position].well_formed());
    one_range_forbids(ranges, which, other, share as int);
}

/// More resource never lowers the welfare: among well-formed guests whose
/// bids descend, the search with `more` to hand out is worth at least what it
/// is worth with `less`.
pub proof fn more_resource_is_worth_no_less(guests: Seq<GuestModel>, less: u64, more: u64)
    requires
        all_well_formed(guests),
        prices_descend(guests),
        less <= more,
    ensures
        worth(guests, search(guests, less)) <= worth(guests, search(guests, more)),
    decreases guests.len(),
{
    search_covers_all(guests, less);
    search_within_budget(guests, less);
    search_within_upper_bounds(guests, less);
    naive_is_worth_most(guests, search(guests, less), less);
    if !naive_violates(guests, more) {
        naive_grows_with_budget(guests, less, more);
        worth_grows_with_amounts(guests, naive_amounts(guests, less), naive_amounts(guests, more));
    } else {
        naive_violation_is_where_budget_ends(guests, more);
        search_takes_the_better_branch(guests, more);
        let position = first_finding(guests, more).0;
        let range = first_finding(guests, more).1;
        let others = guests.remove(position);
        let price = guests[position].unit_price;
        others_stay_well_formed(guests, position);
        assert(prices_descend(others)) by {
            assert forall|i: int, j: int| 0 <= i < j < others.len() implies (
            #[trigger] others[i]).unit_price >= (#[trigger] others[j]).unit_price by {
                let before = if i < position {
                    i
                } else {
                    i + 1
                };
                let after = if j < position {
                    j
                } else {
                    j + 1
                };
                assert(guests[before].unit_price >= guests[after].unit_price);
            }
        }
        branch_worth(guests, more, range.min);
        if naive_violates(guests, less) && first_finding(guests, less) == first_finding(
            guests,
            more,
        ) {
            first_naive_violation(guests, less);
            search_takes_the_better_branch(guests, less);
            branch_worth(guests, less, range.min);
            more_resource_is_worth_no_less(
                others,
                (less - range.min) as u64,
                (more - range.min) as u64,
            );
            if range.max <= less {
                branch_worth(guests, less, range.max);
                branch_worth(guests, more, range.max);
                more_resource_is_worth_no_less(
                    others,
                    (less - range.max) as u64,
                    (more - range.max) as u64,
                );
            }
        } else {
            let share = naive_share(guests, less, position);
            if range.min < share {
                same_first_finding(guests, less, more);
            }
            let greedy = naive_amounts(guests, less);
            assert forall|k: int| position < k < guests.len() implies greedy[k] == 0 by {
                demand_grows(guests, position + 1, k);
            }
            worth_up_to_last_served(guests, greedy, position, guests.len() as int);
            assert(paired(guests, greedy).take(guests.len() as int) =~= paired(guests, greedy));
            assert(price * share <= price * range.min) by (nonlinear_arith)
                requires
                    share <= range.min,
                    0 <= price,
            ;
            demand_of_same_guests(guests, others, position);
            search_serves_covered_guests(others, (more - range.min) as u64, position);
        }
    }
}

} // verus!
