//! The order in which guests are served.

use crate::guest::Guest;
use crate::guest::GuestModel;
use vstd::prelude::*;
use vstd::seq_lib::to_multiset_build;
use vstd::seq_lib::to_multiset_insert;

verus! {

/// No guest stands behind one that it outranks: bids descend, and among equal
/// bids holdings ascend.
pub open spec fn sorted_by_priority(guests: Seq<GuestModel>) -> bool {
    forall|i: int, j: int|
        0 <= i < j < guests.len() ==> !(#[trigger] guests[j]).outranks(#[trigger] guests[i])
}

/// The bids never rise along the list.
pub open spec fn prices_descend(guests: Seq<GuestModel>) -> bool {
    forall|i: int, j: int|
        0 <= i < j < guests.len() ==> (#[trigger] guests[i]).unit_price >= (
        #[trigger] guests[j]).unit_price
}

/// A list in priority order has descending bids.
pub proof fn priority_order_has_descending_prices(guests: Seq<GuestModel>)
    requires
        sorted_by_priority(guests),
    ensures
        prices_descend(guests),
{
    assert forall|i: int, j: int| 0 <= i < j < guests.len() implies (
    #[trigger] guests[i]).unit_price >= (#[trigger] guests[j]).unit_price by {
        assert(!guests[j].outranks(guests[i]));
    }
}

/// Puts the guests in priority order: the higher bid first, and among equal
/// bids the smaller holdings. The order among guests equal in both is not
/// promised.
pub fn sort_guests<'a>(guests: &'a Vec<Guest>) -> (sorted: Vec<&'a Guest>)
    ensures
        sorted_by_priority(sorted.deep_view()),
        prices_descend(sorted.deep_view()),
        sorted.deep_view().to_multiset() == guests.deep_view().to_multiset(),
        sorted.len() == guests.len(),
{
    let ghost models = guests.deep_view();
    let n = guests.len();
    let mut sorted: Vec<&'a Guest> = Vec::new();
    let mut k: usize = 0;
    assert(sorted.deep_view() =~= models.take(0));
    while k < n
        invariant
            models == guests.deep_view(),
            n == guests.len(),
            k <= n,
            sorted.len() == k,
            sorted_by_priority(sorted.deep_view()),
            sorted.deep_view().to_multiset() == models.take(k as int).to_multiset(),
        decreases n - k,
    {
        let guest = &guests[k];
        let ghost before = sorted.deep_view();
        let mut at: usize = 0;
        while at < sorted.len() && !guest.outranks(sorted[at])
            invariant
                at <= sorted.len(),
                before == sorted.deep_view(),
                forall|i: int| 0 <= i < at ==> !guest@.outranks(#[trigger] before[i]),
            decreases sorted.len() - at,
        {
            assert(before[at as int] == sorted[at as int]@);
            at += 1;
        }
        assert(at < sorted.len() ==> guest@.outranks(before[at as int])) by {
            if at < sorted.len() {
                assert(before[at as int] == sorted[at as int]@);
            }
        }
        sorted.insert(at, guest);
        proof {
            let after = sorted.deep_view();
            assert(after =~= before.insert(at as int, guest@));
            assert forall|i: int, j: int| 0 <= i < j < after.len() implies !(
            #[trigger] after[j]).outranks(#[trigger] after[i]) by {
                if j < at {
                    assert(!before[j].outranks(before[i]));
                } else if j == at {
                    assert(!guest@.outranks(before[i]));
                } else if i < at {
                    assert(!before[j - 1].outranks(before[i]));
                } else if i == at {
                    assert(guest@.outranks(before[at as int]));
                    if j - 1 > at {
                        assert(!before[j - 1].outranks(before[at as int]));
                    }
                } else {
                    assert(!before[j - 1].outranks(before[i - 1]));
                }
            }
            to_multiset_insert(before, at as int, guest@);
            assert(models.take(k + 1) =~= models.take(k as int).push(guest@));
            to_multiset_build(models.take(k as int), guest@);
        }
        k += 1;
    }
    assert(models.take(n as int) =~= models);
    proof {
        priority_order_has_descending_prices(sorted.deep_view());
    }
    sorted
}

} // verus!
