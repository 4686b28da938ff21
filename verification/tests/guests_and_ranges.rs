use ginseng::error::AllocError;
use ginseng::guest::Guest;
use ginseng::guest::Range;
use ginseng::priority::sort_guests;
use std::cmp::Ordering;

fn range(min: u64, max: u64) -> Range {
    Range { min, max }
}

fn guest(price: u64, holdings: u64, ranges: Vec<Range>) -> Guest {
    Guest {
        mem_unit_price: price,
        current_holdings: holdings,
        forbidden_ranges: ranges,
        base_memory: 10,
    }
}

#[test]
fn ranges_compare_by_their_lower_end() {
    let low = Range { min: 0, max: 3 };
    let high = Range { min: 4, max: u64::MAX };
    let wide = Range { min: 0, max: 9 };
    assert_eq!(low.cmp(&high), Ordering::Less);
    assert_eq!(high.cmp(&low), Ordering::Greater);
    assert_eq!(low.cmp(&wide), Ordering::Equal);
    assert_eq!(low.partial_cmp(&high), Some(Ordering::Less));
    assert_eq!(low.partial_cmp(&wide), Some(Ordering::Equal));
    assert!(low == wide);
    assert!(low != high);
    assert!(low < high);
    assert!(!(low < wide));
}

#[test]
fn range_forbids_its_interior_only() {
    let range = Range { min: 2, max: 5 };
    assert!(!range.contains_strictly(1));
    assert!(!range.contains_strictly(2));
    assert!(range.contains_strictly(3));
    assert!(range.contains_strictly(4));
    assert!(!range.contains_strictly(5));
    assert!(!range.contains_strictly(6));
    assert!(!Range { min: 2, max: 3 }.contains_strictly(2));
    assert!(Range { min: 4, max: u64::MAX }.contains_strictly(u64::MAX - 1));
    assert!(!Range { min: 4, max: u64::MAX }.contains_strictly(u64::MAX));
}

#[test]
fn guests_compare_by_price_then_holdings() {
    let rich = guest(5, 9, vec![]);
    let poor = guest(2, 0, vec![]);
    let poor_with_more = guest(2, 4, vec![Range { min: 0, max: 3 }]);
    let poor_again = guest(2, 0, vec![Range { min: 1, max: 3 }]);
    assert_eq!(rich.cmp(&poor), Ordering::Less);
    assert_eq!(poor.cmp(&rich), Ordering::Greater);
    assert_eq!(poor.cmp(&poor_with_more), Ordering::Less);
    assert_eq!(poor_with_more.cmp(&poor), Ordering::Greater);
    assert_eq!(poor.cmp(&poor_again), Ordering::Equal);
    assert_eq!(poor.partial_cmp(&rich), Some(Ordering::Greater));
    assert!(rich.outranks(&poor));
    assert!(!poor.outranks(&rich));
    assert!(!poor.outranks(&poor_again));
    assert!(poor == poor_again);
    assert!(poor != poor_with_more);
    assert!(rich < poor);
    assert!(poor <= poor_again);
}

#[test]
fn order_and_equality_agree() {
    let guests =
        vec![guest(1, 1, vec![]), guest(1, 2, vec![]), guest(2, 1, vec![]), guest(1, 1, vec![])];
    for a in &guests {
        for b in &guests {
            assert_eq!(a.cmp(b) == Ordering::Equal, a == b);
            assert_eq!(a.cmp(b) == Ordering::Less, b.cmp(a) == Ordering::Greater);
        }
    }
}

#[test]
fn sorting_puts_high_bids_first_and_small_holdings_before_large() {
    let guests = vec![
        guest(1, 5, vec![]),
        guest(3, 2, vec![]),
        guest(2, 0, vec![]),
        guest(3, 1, vec![]),
        guest(1, 0, vec![]),
    ];
    let sorted = sort_guests(&guests);
    let keys: Vec<(u64, u64)> =
        sorted.iter().map(|g| (g.mem_unit_price, g.current_holdings)).collect();
    assert_eq!(keys, vec![(3, 1), (3, 2), (2, 0), (1, 0), (1, 5)]);
}

#[test]
fn sorting_keeps_every_guest() {
    let guests = vec![guest(1, 1, vec![]), guest(1, 1, vec![range(0, 3)]), guest(1, 1, vec![])];
    let sorted = sort_guests(&guests);
    assert_eq!(sorted.len(), 3);
    assert_eq!(sorted.iter().filter(|g| g.forbidden_ranges.len() == 1).count(), 1);
}

#[test]
fn well_formed_ranges_ascend_without_overlap() {
    let well_formed = |ranges: Vec<Range>| guest(1, 1, ranges).has_well_formed_ranges();
    assert!(well_formed(vec![]));
    assert!(well_formed(vec![range(0, 3), range(4, u64::MAX)]));
    assert!(well_formed(vec![range(0, 3), range(3, 3), range(3, 6)]));
    assert!(!well_formed(vec![range(0, 5), range(3, 8)]));
    assert!(!well_formed(vec![range(4, 8), range(0, 3)]));
    assert!(!well_formed(vec![range(3, 0)]));
    assert!(!well_formed(vec![range(0, 1), range(2, 9), range(8, 9)]));
}

#[test]
fn upper_bound_is_the_lower_end_of_an_unbounded_last_range() {
    let bound = |ranges: Vec<Range>| guest(1, 1, ranges).upper_bound();
    assert_eq!(bound(vec![]), u64::MAX);
    assert_eq!(bound(vec![range(0, 3)]), u64::MAX);
    assert_eq!(bound(vec![range(0, 3), range(4, u64::MAX)]), 4);
    assert_eq!(bound(vec![range(4, u64::MAX), range(0, 3)]), u64::MAX);
    assert_eq!(bound(vec![range(0, u64::MAX)]), 0);
}

#[test]
fn guest_forbids_the_interior_of_each_of_its_ranges() {
    let a = guest(2, 1, vec![range(0, 3), range(4, u64::MAX)]);
    let allowed: Vec<u64> = (0u64..8).filter(|&amount| !a.forbids(amount)).collect();
    assert_eq!(allowed, vec![0, 3, 4]);
    assert!(!a.forbids(u64::MAX));
    assert!(a.forbids(u64::MAX - 1));
    assert!(!guest(2, 1, vec![]).forbids(5));
}

#[test]
fn constructor_refuses_malformed_ranges() {
    let made = Guest::new(2, 1, vec![range(0, 3), range(4, u64::MAX)], 10).unwrap();
    assert_eq!(made.mem_unit_price, 2);
    assert_eq!(made.current_holdings, 1);
    assert_eq!(made.base_memory, 10);
    assert_eq!(made.forbidden_ranges.len(), 2);
    assert_eq!((made.forbidden_ranges[1].min, made.forbidden_ranges[1].max), (4, u64::MAX));
    let refused = Guest::new(2, 1, vec![range(0, 5), range(3, 8)], 10);
    assert_eq!(refused.err(), Some(AllocError::MalformedRanges));
    assert!(Guest::new(2, 1, vec![], 10).is_ok());
}
