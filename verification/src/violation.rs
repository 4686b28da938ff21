//! Finding the amounts that landed inside a forbidden range.

use crate::allocation::Shares;
use crate::guest::Guest;
use crate::guest::GuestModel;
use crate::guest::Range;
use vstd::prelude::*;

verus! {

/// The ranges of `guest` that forbid `amount`, in the guest's order.
pub open spec fn violated_ranges(guest: GuestModel, amount: u64) -> Seq<Range> {
    guest.ranges.filter(|range: Range| range.forbids(amount as int))
}

/// The violations among the first `k` shares: each position whose amount is
/// forbidden, beside every range that forbids it.
pub open spec fn violations_upto(shares: Shares, k: int) -> Seq<(int, Range)>
    decreases k,
{
    if k <= 0 {
        Seq::empty()
    } else {
        violations_upto(shares, k - 1) + violated_ranges(
            shares[k - 1].0,
            shares[k - 1].1,
        ).map_values(|range: Range| (k - 1, range))
    }
}

/// All violations of an allocation, ascending by position.
pub open spec fn violations_of(shares: Shares) -> Seq<(int, Range)> {
    violations_upto(shares, shares.len() as int)
}

/// The findings of the detector with their positions as plain integers.
pub open spec fn located(findings: Seq<(usize, Range)>) -> Seq<(int, Range)> {
    findings.map_values(|finding: (usize, Range)| (finding.0 as int, finding.1))
}

/// Every finding names a position in reach, a range of the guest there, and
/// that range forbids the guest's amount.
pub proof fn violations_are_real(shares: Shares, k: int, at: int)
    requires
        0 <= at < violations_upto(shares, k).len(),
    ensures
        ({
            let position = violations_upto(shares, k)[at].0;
            let range = violations_upto(shares, k)[at].1;
            &&& 0 <= position < k
            &&& shares[position].0.ranges.contains(range)
            &&& range.forbids(shares[position].1 as int)
        }),
    decreases k,
{
    if k > 0 {
        let before = violations_upto(shares, k - 1);
        if at < before.len() {
            violations_are_real(shares, k - 1, at);
        } else {
            let guest = shares[k - 1].0;
            let amount = shares[k - 1].1;
            let test = |range: Range| range.forbids(amount as int);
            let hits = guest.ranges.filter(test);
            let range = hits[at - before.len()];
            guest.ranges.lemma_filter_pred(test, at - before.len());
            assert(hits.contains(range));
            guest.ranges.lemma_filter_contains_rev(test, range);
        }
    }
}

/// The findings come in ascending order of position.
pub proof fn violations_ascend(shares: Shares, k: int, first: int, second: int)
    requires
        0 <= first <= second < violations_upto(shares, k).len(),
    ensures
        violations_upto(shares, k)[first].0 <= violations_upto(shares, k)[second].0,
    decreases k,
{
    if k > 0 {
        let before = violations_upto(shares, k - 1);
        if second < before.len() {
            violations_ascend(shares, k - 1, first, second);
        } else if first < before.len() {
            violations_are_real(shares, k - 1, first);
        }
    }
}

/// No violation is missed: a position whose amount is forbidden has a finding.
pub proof fn violations_are_complete(shares: Shares, k: int, position: int) -> (at: int)
    requires
        0 <= position < k,
        shares[position].0.forbids(shares[position].1 as int),
    ensures
        0 <= at < violations_upto(shares, k).len(),
        violations_upto(shares, k)[at].0 == position,
    decreases k,
{
    let before = violations_upto(shares, k - 1);
    if position < k - 1 {
        violations_are_complete(shares, k - 1, position)
    } else {
        let guest = shares[k - 1].0;
        let amount = shares[k - 1].1;
        let test = |range: Range| range.forbids(amount as int);
        let hits = guest.ranges.filter(test);
        let ranges = guest.ranges;
        let which = choose|which: int|
            0 <= which < ranges.len() && (#[trigger] ranges[which]).forbids(amount as int);
        ranges.lemma_filter_contains(test, which);
        let found = choose|found: int| 0 <= found < hits.len() && hits[found] == ranges[which];
        before.len() + found
    }
}

/// An allocation without findings forbids nothing, and the other way round.
pub proof fn no_violation_means_none_forbidden(shares: Shares)
    ensures
        violations_of(shares).len() == 0 <==> forall|position: int|
            0 <= position < shares.len() ==> !(#[trigger] shares[position]).0.forbids(
                shares[position].1 as int,
            ),
{
    let n = shares.len() as int;
    if violations_of(shares).len() == 0 {
        assert forall|position: int| 0 <= position < n implies !(
        #[trigger] shares[position]).0.forbids(shares[position].1 as int) by {
            if shares[position].0.forbids(shares[position].1 as int) {
                violations_are_complete(shares, n, position);
            }
        }
    } else {
        violations_are_real(shares, n, 0);
        let finding = violations_of(shares)[0];
        let ranges = shares[finding.0].0.ranges;
        let which = choose|which: int| 0 <= which < ranges.len() && ranges[which] == finding.1;
        assert(ranges[which].forbids(shares[finding.0].1 as int));
        assert(shares[finding.0].0.forbids(shares[finding.0].1 as int));
    }
}

/// The first finding is at the first position whose amount is forbidden.
pub proof fn first_violation_is_earliest(shares: Shares)
    requires
        violations_of(shares).len() > 0,
    ensures
        ({
            let first = violations_of(shares)[0].0;
            let range = violations_of(shares)[0].1;
            &&& 0 <= first < shares.len()
            &&& shares[first].0.ranges.contains(range)
            &&& range.forbids(shares[first].1 as int)
            &&& forall|position: int|
                0 <= position < first ==> !(#[trigger] shares[position]).0.forbids(
                    shares[position].1 as int,
                )
        }),
{
    let n = shares.len() as int;
    violations_are_real(shares, n, 0);
    assert forall|position: int| 0 <= position < violations_of(shares)[0].0 implies !(
    #[trigger] shares[position]).0.forbids(shares[position].1 as int) by {
        if shares[position].0.forbids(shares[position].1 as int) {
            let at = violations_are_complete(shares, n, position);
            violations_ascend(shares, n, 0, at);
        }
    }
}

/// Lists every position whose amount lies strictly inside a forbidden range of
/// its guest, beside that range, in ascending order of position. Where
/// overlapping ranges forbid one amount, each of them is listed.
pub fn find_violations(allocation_pairs: &Vec<(&Guest, u64)>) -> (findings: Vec<(usize, Range)>)
    ensures
        located(findings@) == violations_of(allocation_pairs.deep_view()),
{
    let ghost shares = allocation_pairs.deep_view();
    let n = allocation_pairs.len();
    let mut findings: Vec<(usize, Range)> = Vec::new();
    let mut k: usize = 0;
    assert(located(findings@) =~= violations_upto(shares, 0));
    while k < n
        invariant
            shares == allocation_pairs.deep_view(),
            n == allocation_pairs.len(),
            k <= n,
            located(findings@) == violations_upto(shares, k as int),
        decreases n - k,
    {
        let guest = allocation_pairs[k].0;
        let amount = allocation_pairs[k].1;
        let count = guest.forbidden_ranges.len();
        let ghost ranges = guest.forbidden_ranges@;
        let ghost test = |range: Range| range.forbids(amount as int);
        let ghost label = |range: Range| (k as int, range);
        let mut j: usize = 0;
        assert(shares[k as int] == (guest@, amount));
        assert(located(findings@) =~= violations_upto(shares, k as int) + ranges.take(0).filter(
            test,
        ).map_values(label)) by {
            reveal(Seq::filter);
        }
        while j < count
            invariant
                count == guest.forbidden_ranges.len(),
                ranges == guest.forbidden_ranges@,
                test == |range: Range| range.forbids(amount as int),
                label == |range: Range| (k as int, range),
                j <= count,
                located(findings@) == violations_upto(shares, k as int) + ranges.take(
                    j as int,
                ).filter(test).map_values(label),
            decreases count - j,
        {
            let range = guest.forbidden_ranges[j];
            let ghost before = findings@;
            proof {
                assert(ranges.take(j + 1) =~= ranges.take(j as int).push(range));
                ranges.take(j as int).lemma_filter_push(range, test);
            }
            if range.contains_strictly(amount) {
                findings.push((k, range));
                assert(located(findings@) =~= located(before).push((k as int, range)));
                assert(ranges.take(j + 1).filter(test).map_values(label) =~= ranges.take(
                    j as int,
                ).filter(test).map_values(label).push((k as int, range)));
            }
            j += 1;
        }
        assert(ranges.take(count as int) =~= ranges);
        k += 1;
    }
    findings
}

} // verus!
