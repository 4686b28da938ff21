//! Guests, their forbidden ranges, and the order in which guests are served.

use crate::error::AllocError;
use std::cmp::Ordering;
use vstd::prelude::*;
use vstd::std_specs::cmp::PartialEqSpecImpl;
use vstd::std_specs::cmp::PartialOrdSpecImpl;

verus! {

/// An interval of amounts that are useless to a guest.
///
/// Both end points may still be allocated: only the amounts strictly between
/// `min` and `max` are forbidden. A range whose `max` is `u64::MAX` forbids
/// everything above `min`.
#[derive(Debug, Clone, Copy, Eq)]
pub struct Range {
    pub min: u64,
    pub max: u64,
}

impl Range {
    /// Whether `amount` lies strictly inside the range.
    pub open spec fn forbids(self, amount: int) -> bool {
        self.min < amount < self.max
    }

    /// Whether the range reaches up to the largest amount there is.
    pub open spec fn is_unbounded(self) -> bool {
        self.max == u64::MAX
    }

    /// Decides whether `amount` lies strictly inside the range.
    pub fn contains_strictly(&self, amount: u64) -> (inside: bool)
        ensures
            inside == self.forbids(amount as int),
    {
        self.min < amount && amount < self.max
    }

    /// Orders ranges by their lower end alone. The ranges of one guest do not
    /// overlap, so the lower end decides their order.
    pub fn cmp(&self, other: &Range) -> (order: Ordering)
        ensures
            order == range_order(*self, *other),
    {
        if self.min < other.min {
            Ordering::Less
        } else if self.min == other.min {
            Ordering::Equal
        } else {
            Ordering::Greater
        }
    }
}

/// The order of two ranges: that of their lower ends.
pub open spec fn range_order(a: Range, b: Range) -> Ordering {
    if a.min < b.min {
        Ordering::Less
    } else if a.min == b.min {
        Ordering::Equal
    } else {
        Ordering::Greater
    }
}

impl PartialEq for Range {
    fn eq(&self, other: &Range) -> (equal: bool) {
        self.min == other.min
    }
}

impl PartialEqSpecImpl for Range {
    open spec fn obeys_eq_spec() -> bool {
        true
    }

    open spec fn eq_spec(&self, other: &Range) -> bool {
        self.min == other.min
    }
}

impl PartialOrd for Range {
    fn partial_cmp(&self, other: &Range) -> (order: Option<Ordering>) {
        Some(self.cmp(other))
    }
}

impl PartialOrdSpecImpl for Range {
    open spec fn obeys_partial_cmp_spec() -> bool {
        true
    }

    open spec fn partial_cmp_spec(&self, other: &Range) -> Option<Ordering> {
        Some(range_order(*self, *other))
    }
}

/// A bidder for the resource.
#[derive(Debug, Eq)]
pub struct Guest {
    /// The bid: what the guest pays for one unit.
    pub mem_unit_price: u64,
    /// What the guest holds from earlier rounds. It only breaks ties between
    /// equal bids.
    pub current_holdings: u64,
    /// The amounts that are useless to the guest, in ascending order and
    /// without overlap.
    pub forbidden_ranges: Vec<Range>,
    /// Descriptive data that no allocation rule reads.
    pub base_memory: u64,
}

/// What a guest is to the allocation rules.
pub struct GuestModel {
    pub unit_price: u64,
    pub holdings: u64,
    pub ranges: Seq<Range>,
    pub base_memory: u64,
}

impl View for Guest {
    type V = GuestModel;

    open spec fn view(&self) -> GuestModel {
        GuestModel {
            unit_price: self.mem_unit_price,
            holdings: self.current_holdings,
            ranges: self.forbidden_ranges@,
            base_memory: self.base_memory,
        }
    }
}

impl DeepView for Guest {
    type V = GuestModel;

    open spec fn deep_view(&self) -> GuestModel {
        self@
    }
}

/// The ranges are intervals, listed in ascending order, and the interior of
/// one ends before the next begins.
pub open spec fn ranges_well_formed(ranges: Seq<Range>) -> bool {
    &&& forall|i: int| 0 <= i < ranges.len() ==> (#[trigger] ranges[i]).min <= ranges[i].max
    &&& forall|i: int, j: int|
        0 <= i < j < ranges.len() ==> (#[trigger] ranges[i]).max <= (#[trigger] ranges[j]).min
}

/// Whether `amount` lies strictly inside one of the ranges.
pub open spec fn forbidden_in(ranges: Seq<Range>, amount: int) -> bool {
    exists|k: int| 0 <= k < ranges.len() && (#[trigger] ranges[k]).forbids(amount)
}

/// The most that a guest with these ranges can use: the lower end of the last
/// range where that range is unbounded, and no limit otherwise.
pub open spec fn usable_upper_bound(ranges: Seq<Range>) -> u64 {
    if ranges.len() > 0 && ranges.last().is_unbounded() {
        ranges.last().min
    } else {
        u64::MAX
    }
}

impl GuestModel {
    /// The guest's ranges are well formed.
    pub open spec fn well_formed(self) -> bool {
        ranges_well_formed(self.ranges)
    }

    /// Whether `amount` is useless to the guest.
    pub open spec fn forbids(self, amount: int) -> bool {
        forbidden_in(self.ranges, amount)
    }

    /// The most that the guest can use.
    pub open spec fn upper_bound(self) -> u64 {
        usable_upper_bound(self.ranges)
    }

    /// The guest is served strictly before `other`: it bids more, or it bids
    /// the same and holds less.
    pub open spec fn outranks(self, other: GuestModel) -> bool {
        self.unit_price > other.unit_price || (self.unit_price == other.unit_price
            && self.holdings < other.holdings)
    }

    /// Neither guest is served before the other by rule.
    pub open spec fn ties_with(self, other: GuestModel) -> bool {
        self.unit_price == other.unit_price && self.holdings == other.holdings
    }
}

/// Whether every guest has well-formed ranges.
pub open spec fn all_well_formed(guests: Seq<GuestModel>) -> bool {
    forall|k: int| 0 <= k < guests.len() ==> (#[trigger] guests[k]).well_formed()
}

/// Both ends of a range may be allocated: no well-formed list of ranges
/// forbids an end of one of its ranges.
pub proof fn range_ends_are_usable(ranges: Seq<Range>, which: int)
    requires
        ranges_well_formed(ranges),
        0 <= which < ranges.len(),
    ensures
        !forbidden_in(ranges, ranges[which].min as int),
        !forbidden_in(ranges, ranges[which].max as int),
{
    assert forall|k: int| 0 <= k < ranges.len() implies !(#[trigger] ranges[k]).forbids(
        ranges[which].min as int,
    ) && !ranges[k].forbids(ranges[which].max as int) by {
        assert(ranges[which].min <= ranges[which].max);
        if k < which {
            assert(ranges[k].max <= ranges[which].min);
        } else if k > which {
            assert(ranges[which].max <= ranges[k].min);
        }
    }
}

/// The ranges of a guest do not overlap: no amount lies inside two of them.
pub proof fn one_range_forbids(ranges: Seq<Range>, first: int, second: int, amount: int)
    requires
        ranges_well_formed(ranges),
        0 <= first < ranges.len(),
        0 <= second < ranges.len(),
        ranges[first].forbids(amount),
        ranges[second].forbids(amount),
    ensures
        first == second,
{
    if first < second {
        assert(ranges[first].max <= ranges[second].min);
    } else if second < first {
        assert(ranges[second].max <= ranges[first].min);
    }
}

/// Taking a guest out leaves the others as well formed as they were.
pub(crate) proof fn others_stay_well_formed(guests: Seq<GuestModel>, position: int)
    requires
        all_well_formed(guests),
        0 <= position < guests.len(),
    ensures
        all_well_formed(guests.remove(position)),
{
    let others = guests.remove(position);
    assert forall|k: int| 0 <= k < others.len() implies (#[trigger] others[k]).well_formed() by {
        if k < position {
            assert(guests[k].well_formed());
        } else {
            assert(guests[k + 1].well_formed());
        }
    }
}

/// A forbidden amount lies below what the guest can use, and so does the
/// upper end of the range that forbids it.
pub proof fn violation_is_below_upper_bound(ranges: Seq<Range>, which: int, amount: int)
    requires
        ranges_well_formed(ranges),
        0 <= which < ranges.len(),
        ranges[which].forbids(amount),
        amount <= usable_upper_bound(ranges),
    ensures
        amount < usable_upper_bound(ranges),
        ranges[which].max <= usable_upper_bound(ranges),
{
    if ranges.last().is_unbounded() && which < ranges.len() - 1 {
        assert(ranges[which].max <= ranges[ranges.len() - 1].min);
    }
}

impl Guest {
    /// Makes a guest, unless its forbidden ranges are malformed.
    pub fn new(
        mem_unit_price: u64,
        current_holdings: u64,
        forbidden_ranges: Vec<Range>,
        base_memory: u64,
    ) -> (made: Result<Guest, AllocError>)
        ensures
            match made {
                Ok(guest) => {
                    &&& ranges_well_formed(forbidden_ranges@)
                    &&& guest.mem_unit_price == mem_unit_price
                    &&& guest.current_holdings == current_holdings
                    &&& guest.forbidden_ranges == forbidden_ranges
                    &&& guest.base_memory == base_memory
                },
                Err(reason) => {
                    &&& !ranges_well_formed(forbidden_ranges@)
                    &&& reason == AllocError::MalformedRanges
                },
            },
    {
        let guest = Guest { mem_unit_price, current_holdings, forbidden_ranges, base_memory };
        if guest.has_well_formed_ranges() {
            Ok(guest)
        } else {
            Err(AllocError::MalformedRanges)
        }
    }

    /// Decides whether the forbidden ranges are well formed.
    pub fn has_well_formed_ranges(&self) -> (ok: bool)
        ensures
            ok == self@.well_formed(),
    {
        let n = self.forbidden_ranges.len();
        let mut k: usize = 0;
        while k < n
            invariant
                n == self.forbidden_ranges@.len(),
                k <= n,
                ranges_well_formed(self.forbidden_ranges@.take(k as int)),
            decreases n - k,
        {
            let current = self.forbidden_ranges[k];
            if current.min > current.max {
                return false;
            }
            if k > 0 && self.forbidden_ranges[k - 1].max > current.min {
                return false;
            }
            proof {
                let ranges = self.forbidden_ranges@;
                let before = ranges.take(k as int);
                let after = ranges.take(k + 1);
                assert forall|i: int, j: int| 0 <= i < j < after.len() implies (
                #[trigger] after[i]).max <= (#[trigger] after[j]).min by {
                    if j < k {
                        assert(before[i].max <= before[j].min);
                    } else if i < k - 1 {
                        assert(before[i].max <= before[k - 1].min);
                        assert(before[k - 1].min <= before[k - 1].max);
                    }
                }
                assert forall|i: int| 0 <= i < after.len() implies (#[trigger] after[i]).min
                    <= after[i].max by {
                    if i < k {
                        assert(before[i].min <= before[i].max);
                    }
                }
            }
            k += 1;
        }
        assert(self.forbidden_ranges@.take(n as int) =~= self.forbidden_ranges@);
        true
    }

    /// The most that the guest can use.
    pub fn upper_bound(&self) -> (bound: u64)
        ensures
            bound == self@.upper_bound(),
    {
        let n = self.forbidden_ranges.len();
        if n > 0 && self.forbidden_ranges[n - 1].max == u64::MAX {
            self.forbidden_ranges[n - 1].min
        } else {
            u64::MAX
        }
    }

    /// Decides whether `amount` lies strictly inside a forbidden range.
    pub fn forbids(&self, amount: u64) -> (useless: bool)
        ensures
            useless == self@.forbids(amount as int),
    {
        let n = self.forbidden_ranges.len();
        let mut k: usize = 0;
        while k < n
            invariant
                n == self.forbidden_ranges@.len(),
                k <= n,
                forall|i: int|
                    0 <= i < k ==> !(#[trigger] self.forbidden_ranges@[i]).forbids(amount as int),
            decreases n - k,
        {
            if self.forbidden_ranges[k].contains_strictly(amount) {
                return true;
            }
            k += 1;
        }
        false
    }

    /// Decides whether the guest is served strictly before `other`.
    pub fn outranks(&self, other: &Guest) -> (first: bool)
        ensures
            first == self@.outranks(other@),
    {
        self.mem_unit_price > other.mem_unit_price || (self.mem_unit_price == other.mem_unit_price
            && self.current_holdings < other.current_holdings)
    }

    /// Compares two guests for service: the higher bid comes first, and among
    /// equal bids the smaller holdings. Guests equal in both compare equal.
    pub fn cmp(&self, other: &Guest) -> (order: Ordering)
        ensures
            order == guest_order(self@, other@),
    {
        if self.outranks(other) {
            Ordering::Less
        } else if other.outranks(self) {
            Ordering::Greater
        } else {
            Ordering::Equal
        }
    }
}

/// The order of two guests for service.
pub open spec fn guest_order(a: GuestModel, b: GuestModel) -> Ordering {
    if a.outranks(b) {
        Ordering::Less
    } else if b.outranks(a) {
        Ordering::Greater
    } else {
        Ordering::Equal
    }
}

impl PartialEq for Guest {
    fn eq(&self, other: &Guest) -> (equal: bool) {
        other.mem_unit_price == self.mem_unit_price && self.current_holdings
            == other.current_holdings
    }
}

impl PartialEqSpecImpl for Guest {
    open spec fn obeys_eq_spec() -> bool {
        true
    }

    open spec fn eq_spec(&self, other: &Guest) -> bool {
        self@.ties_with(other@)
    }
}

impl PartialOrd for Guest {
    fn partial_cmp(&self, other: &Guest) -> (order: Option<Ordering>) {
        Some(self.cmp(other))
    }
}

impl PartialOrdSpecImpl for Guest {
    open spec fn obeys_partial_cmp_spec() -> bool {
        true
    }

    open spec fn partial_cmp_spec(&self, other: &Guest) -> Option<Ordering> {
        Some(guest_order(self@, other@))
    }
}

/// Two guests compare equal exactly where neither is served before the other,
/// and that is where `==` holds: the order never contradicts the equality.
pub proof fn order_agrees_with_equality(a: GuestModel, b: GuestModel)
    ensures
        (guest_order(a, b) == Ordering::Equal) == a.ties_with(b),
        (guest_order(a, b) == Ordering::Less) == (guest_order(b, a) == Ordering::Greater),
        a.ties_with(b) == b.ties_with(a),
{
}

} // verus!
