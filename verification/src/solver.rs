//! The search that repairs violations of the greedy baseline.

use crate::allocation::amounts_of;
use crate::allocation::naive_allocate;
use crate::allocation::naive_amounts;
use crate::allocation::naive_share;
use crate::allocation::naive_within_budget;
use crate::allocation::pair_up;
use crate::allocation::paired;
use crate::allocation::total;
use crate::allocation::welfare_of;
use crate::allocation::wide_welfare;
use crate::guest::all_well_formed;
use crate::guest::others_stay_well_formed;
use crate::guest::range_ends_are_usable;
use crate::guest::Guest;
use crate::guest::GuestModel;
use crate::guest::Range;
use crate::violation::find_violations;
use crate::violation::first_violation_is_earliest;
use crate::violation::located;
use crate::violation::no_violation_means_none_forbidden;
use crate::violation::violations_of;
use vstd::prelude::*;

verus! {

/// The amounts that can replace one that a range forbids: the lower end of the
/// range, and its upper end where the budget reaches that far.
pub open spec fn repair_options(range: Range, available: u64) -> Seq<u64> {
    if range.max <= available {
        seq![range.min, range.max]
    } else {
        seq![range.min]
    }
}

/// The one or two amounts that can replace an amount inside
/// `applicable_range`: its lower end always, its upper end where
/// `available_memory` reaches that far.
pub fn two_options(applicable_range: Range, available_memory: u64) -> (options: Vec<u64>)
    ensures
        options@ == repair_options(applicable_range, available_memory),
{
    let mut options: Vec<u64> = Vec::new();
    options.push(applicable_range.min);
    if applicable_range.max <= available_memory {
        options.push(applicable_range.max);
    }
    assert(options@ =~= repair_options(applicable_range, available_memory));
    options
}

/// The allocation that the search settles on for `guests`, all of them free,
/// with `available` to hand out.
///
/// Where the greedy baseline violates nothing, it is the result. Otherwise the
/// guest of the first violation is taken out and given either end of the
/// violated range, the others share what is then left by the same rule, and
/// the end that yields the greater welfare wins; on equal welfare, the lower.
/// The lower end of a violated range is below the amount that violated it, so
/// it never exceeds the budget.
pub open spec fn search(guests: Seq<GuestModel>, available: u64) -> Seq<u64>
    decreases guests.len(),
    via search_takes_a_guest_out
{
    let naive = naive_amounts(guests, available);
    let findings = violations_of(paired(guests, naive));
    if findings.len() == 0 {
        naive
    } else {
        let position = findings[0].0;
        let range = findings[0].1;
        let others = guests.remove(position);
        let low = search(others, (available - range.min) as u64).insert(position, range.min);
        if range.max <= available {
            let high = search(others, (available - range.max) as u64).insert(position, range.max);
            if welfare_of(paired(guests, high)) > welfare_of(paired(guests, low)) {
                high
            } else {
                low
            }
        } else {
            low
        }
    }
}

/// A finding names one of the guests, so that fewer guests are left to search.
#[via_fn]
proof fn search_takes_a_guest_out(guests: Seq<GuestModel>, available: u64) {
    let shares = paired(guests, naive_amounts(guests, available));
    if violations_of(shares).len() > 0 {
        first_violation_is_earliest(shares);
    }
}

/// Inserting an amount adds it to the total.
pub(crate) proof fn total_after_insert(amounts: Seq<u64>, position: int, amount: u64)
    requires
        0 <= position <= amounts.len(),
    ensures
        total(amounts.insert(position, amount)) == total(amounts) + amount,
    decreases amounts.len(),
{
    let longer = amounts.insert(position, amount);
    if position == amounts.len() {
        assert(longer.drop_last() =~= amounts);
    } else {
        assert(longer.drop_last() =~= amounts.drop_last().insert(position, amount));
        total_after_insert(amounts.drop_last(), position, amount);
    }
}

/// The first finding against the greedy baseline: where it is and what its
/// range allows.
pub(crate) proof fn first_naive_violation(guests: Seq<GuestModel>, available: u64)
    requires
        violations_of(paired(guests, naive_amounts(guests, available))).len() > 0,
    ensures
        ({
            let finding = violations_of(paired(guests, naive_amounts(guests, available)))[0];
            &&& 0 <= finding.0 < guests.len()
            &&& guests[finding.0].ranges.contains(finding.1)
            &&& finding.1.forbids(naive_share(guests, available, finding.0) as int)
            &&& finding.1.min < available
        }),
{
    let shares = paired(guests, naive_amounts(guests, available));
    first_violation_is_earliest(shares);
}

/// The search gives every guest an amount.
pub proof fn search_covers_all(guests: Seq<GuestModel>, available: u64)
    ensures
        search(guests, available).len() == guests.len(),
    decreases guests.len(),
{
    let naive = naive_amounts(guests, available);
    let findings = violations_of(paired(guests, naive));
    if findings.len() > 0 {
        first_naive_violation(guests, available);
        let position = findings[0].0;
        let range = findings[0].1;
        let others = guests.remove(position);
        search_covers_all(others, (available - range.min) as u64);
        if range.max <= available {
            search_covers_all(others, (available - range.max) as u64);
        }
    }
}

/// The search never hands out more than there is.
pub proof fn search_within_budget(guests: Seq<GuestModel>, available: u64)
    ensures
        total(search(guests, available)) <= available,
    decreases guests.len(),
{
    let naive = naive_amounts(guests, available);
    let findings = violations_of(paired(guests, naive));
    if findings.len() > 0 {
        first_naive_violation(guests, available);
        let position = findings[0].0;
        let range = findings[0].1;
        let others = guests.remove(position);
        let lower = (available - range.min) as u64;
        search_covers_all(others, lower);
        search_within_budget(others, lower);
        total_after_insert(search(others, lower), position, range.min);
        if range.max <= available {
            let upper = (available - range.max) as u64;
            search_covers_all(others, upper);
            search_within_budget(others, upper);
            total_after_insert(search(others, upper), position, range.max);
        }
    } else {
        naive_within_budget(guests, available);
    }
}

/// The search leaves no guest with an amount strictly inside one of its own
/// forbidden ranges.
pub proof fn search_forbids_nothing(guests: Seq<GuestModel>, available: u64)
    requires
        all_well_formed(guests),
    ensures
        forall|k: int|
            0 <= k < guests.len() ==> !(#[trigger] guests[k]).forbids(
                search(guests, available)[k] as int,
            ),
    decreases guests.len(),
{
    let naive = naive_amounts(guests, available);
    let findings = violations_of(paired(guests, naive));
    let found = search(guests, available);
    if findings.len() > 0 {
        first_naive_violation(guests, available);
        let position = findings[0].0;
        let range = findings[0].1;
        let others = guests.remove(position);
        let ranges = guests[position].ranges;
        let which = choose|which: int| 0 <= which < ranges.len() && ranges[which] == range;
        assert(guests[position].well_formed());
        range_ends_are_usable(ranges, which);
        let budget = if found[position] == range.min {
            (available - range.min) as u64
        } else {
            (available - range.max) as u64
        };
        let sub = search(others, budget);
        search_covers_all(others, (available - range.min) as u64);
        if range.max <= available {
            search_covers_all(others, (available - range.max) as u64);
        }
        assert(found == sub.insert(position, found[position]));
        others_stay_well_formed(guests, position);
        search_forbids_nothing(others, budget);
        assert forall|k: int| 0 <= k < guests.len() implies !(#[trigger] guests[k]).forbids(
            found[k] as int,
        ) by {
            if k < position {
                assert(!others[k].forbids(sub[k] as int));
            } else if k > position {
                assert(!others[k - 1].forbids(sub[k - 1] as int));
            }
        }
    } else {
        no_violation_means_none_forbidden(paired(guests, naive));
        assert forall|k: int| 0 <= k < guests.len() implies !(#[trigger] guests[k]).forbids(
            found[k] as int,
        ) by {
            let shares = paired(guests, naive);
            assert(!shares[k].0.forbids(shares[k].1 as int));
        }
    }
}

/// The guests but the one at `position`.
fn without<'a>(guests: &Vec<&'a Guest>, position: usize) -> (others: Vec<&'a Guest>)
    requires
        position < guests.len(),
    ensures
        others.deep_view() == guests.deep_view().remove(position as int),
        others.len() == guests.len() - 1,
{
    let n = guests.len();
    let mut others: Vec<&'a Guest> = Vec::new();
    let mut k: usize = 0;
    while k < n
        invariant
            n == guests.len(),
            position < n,
            k <= n,
            others.len() == if k <= position { k as int } else { k - 1 },
            forall|j: int|
                0 <= j < others.len() ==> #[trigger] others@[j] == guests@[if j < position {
                    j
                } else {
                    j + 1
                }],
        decreases n - k,
    {
        if k != position {
            others.push(guests[k]);
        }
        k += 1;
    }
    assert(others.deep_view() =~= guests.deep_view().remove(position as int));
    others
}

/// Repairs the guest at `position` with `amount` and lets the others share the
/// rest of the budget.
fn repaired<'a>(
    guests: &Vec<&'a Guest>,
    others: &Vec<&'a Guest>,
    available: u64,
    position: usize,
    amount: u64,
) -> (outcome: (Vec<u64>, u128))
    requires
        position < guests.len(),
        amount <= available,
        others.len() + 1 == guests.len(),
        others.deep_view() == guests.deep_view().remove(position as int),
    ensures
        outcome.0@ == search(others.deep_view(), (available - amount) as u64).insert(
            position as int,
            amount,
        ),
        outcome.1 == welfare_of(paired(guests.deep_view(), outcome.0@)),
    decreases guests.len(), 0nat,
{
    let mut amounts = run_search(others, available - amount);
    proof {
        search_covers_all(others.deep_view(), (available - amount) as u64);
        search_within_budget(others.deep_view(), (available - amount) as u64);
        total_after_insert(amounts@, position as int, amount);
    }
    amounts.insert(position, amount);
    let pairs = pair_up(guests, &amounts);
    proof {
        let shares = paired(guests.deep_view(), amounts@);
        assert(guests.deep_view().take(pairs.len() as int) =~= guests.deep_view());
        assert(amounts@.take(pairs.len() as int) =~= amounts@);
        assert(amounts_of(shares) =~= amounts@);
    }
    let worth = wide_welfare(&pairs);
    (amounts, worth)
}

/// Runs the search on guests that are all free.
pub(crate) fn run_search(guests: &Vec<&Guest>, available: u64) -> (amounts: Vec<u64>)
    ensures
        amounts@ == search(guests.deep_view(), available),
    decreases guests.len(), 1nat,
{
    let naive = naive_allocate(guests, available);
    let pairs = pair_up(guests, &naive);
    proof {
        assert(guests.deep_view().take(pairs.len() as int) =~= guests.deep_view());
        assert(naive@.take(pairs.len() as int) =~= naive@);
    }
    let findings = find_violations(&pairs);
    if findings.len() == 0 {
        return naive;
    }
    let position = findings[0].0;
    let range = findings[0].1;
    proof {
        assert(located(findings@)[0] == (position as int, range));
        first_naive_violation(guests.deep_view(), available);
    }
    let others = without(guests, position);
    let options = two_options(range, available);
    let (low, low_worth) = repaired(guests, &others, available, position, options[0]);
    if options.len() > 1 {
        let (high, high_worth) = repaired(guests, &others, available, position, options[1]);
        if high_worth > low_worth {
            return high;
        }
    }
    low
}

} // verus!
