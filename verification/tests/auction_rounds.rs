use ginseng::allocation::naive_allocate;
use ginseng::allocation::pair_up;
use ginseng::allocation::welfare;
use ginseng::auction::all_ranges_well_formed;
use ginseng::auction::auction;
use ginseng::auction::solve;
use ginseng::error::AllocError;
use ginseng::guest::Guest;
use ginseng::guest::Range;
use ginseng::priority::sort_guests;
use ginseng::solver::two_options;
use ginseng::violation::find_violations;
use std::collections::HashMap;

fn guest(price: u64, holdings: u64, ranges: &[(u64, u64)]) -> Guest {
    Guest {
        mem_unit_price: price,
        current_holdings: holdings,
        forbidden_ranges: ranges.iter().map(|&(min, max)| Range { min, max }).collect(),
        base_memory: 10,
    }
}

fn guest_a() -> Guest {
    guest(2, 1, &[(0, 3), (4, u64::MAX)])
}

fn guest_b() -> Guest {
    guest(1, 1, &[(0, 3), (5, u64::MAX)])
}

fn amounts(pairs: &Vec<(&Guest, u64)>) -> Vec<u64> {
    pairs.iter().map(|pair| pair.1).collect()
}

#[test]
fn two_guest_round_sorts_the_higher_bid_first() {
    let guests = vec![guest_b(), guest_a()];
    let sorted = sort_guests(&guests);
    assert_eq!(sorted.len(), 2);
    assert_eq!(sorted[0].mem_unit_price, 2);
    assert_eq!(sorted[1].mem_unit_price, 1);
}

#[test]
fn two_guest_round_naive_pass_stops_at_the_ceiling() {
    let guests = vec![guest_a(), guest_b()];
    let sorted = sort_guests(&guests);
    assert_eq!(naive_allocate(&sorted, 6), vec![4, 2]);
}

#[test]
fn two_guest_round_detector_flags_the_interior_hit() {
    let guests = vec![guest_a(), guest_b()];
    let sorted = sort_guests(&guests);
    let naive = naive_allocate(&sorted, 6);
    let findings = find_violations(&pair_up(&sorted, &naive));
    assert_eq!(findings.len(), 1);
    assert_eq!(findings[0].0, 1);
    assert_eq!(findings[0].1.min, 0);
    assert_eq!(findings[0].1.max, 3);
}

#[test]
fn two_guest_round_takes_the_branch_of_greater_welfare() {
    let guests = vec![guest_a(), guest_b()];
    let sorted = sort_guests(&guests);
    let pairs = auction(&sorted, 6).unwrap();
    assert_eq!(amounts(&pairs), vec![3, 3]);
    assert_eq!(pairs[0].0.mem_unit_price, 2);
    assert_eq!(pairs[1].0.mem_unit_price, 1);
    assert_eq!(welfare(&pairs), Ok(9));
    assert!(amounts(&pairs).iter().sum::<u64>() <= 6);
    assert!(find_violations(&pairs).is_empty());
}

#[test]
fn pinned_guest_keeps_its_amount_and_the_rest_is_searched() {
    let guests = vec![guest_a(), guest_b()];
    let sorted = sort_guests(&guests);
    let mut pinned = HashMap::new();
    pinned.insert(1u64, 0u64);
    let pairs = solve(&sorted, 6, &pinned).unwrap();
    assert_eq!(amounts(&pairs), vec![4, 0]);

    let alone = vec![guest_a()];
    let alone_sorted = sort_guests(&alone);
    let alone_pairs = solve(&alone_sorted, 6, &HashMap::new()).unwrap();
    assert_eq!(amounts(&alone_pairs), vec![4]);
    assert_eq!(welfare(&pairs).unwrap(), welfare(&alone_pairs).unwrap() + 0);
    assert_eq!(welfare(&pairs), Ok(8));
}

#[test]
fn pinned_amounts_come_off_the_budget_first() {
    let guests = vec![guest_a(), guest_b()];
    let sorted = sort_guests(&guests);
    let mut pinned = HashMap::new();
    pinned.insert(0u64, 3u64);
    let pairs = solve(&sorted, 6, &pinned).unwrap();
    assert_eq!(amounts(&pairs), vec![3, 3]);
    pinned.insert(0u64, 4u64);
    let pairs = solve(&sorted, 6, &pinned).unwrap();
    assert_eq!(amounts(&pairs), vec![4, 0]);
}

#[test]
fn pinned_amount_inside_a_forbidden_range_is_refused() {
    let guests = vec![guest_a(), guest_b()];
    let sorted = sort_guests(&guests);
    let mut pinned = HashMap::new();
    pinned.insert(0u64, 1u64);
    assert_eq!(solve(&sorted, 6, &pinned).err(), Some(AllocError::ForbiddenPin));
    pinned.insert(0u64, 5u64);
    assert_eq!(solve(&sorted, 6, &pinned).err(), Some(AllocError::ForbiddenPin));
    pinned.insert(0u64, 100u64);
    assert_eq!(solve(&sorted, 6, &pinned).err(), Some(AllocError::ForbiddenPin));
    pinned.insert(0u64, 3u64);
    pinned.insert(1u64, 4u64);
    assert_eq!(solve(&sorted, 6, &pinned).err(), Some(AllocError::BudgetUnderflow));
    pinned.insert(1u64, 3u64);
    let pairs = solve(&sorted, 6, &pinned).unwrap();
    assert_eq!(amounts(&pairs), vec![3, 3]);
}

#[test]
fn pinned_keys_of_no_position_are_not_read() {
    let guests = vec![guest_a(), guest_b()];
    let sorted = sort_guests(&guests);
    let mut pinned = HashMap::new();
    pinned.insert(7u64, 100u64);
    let pairs = solve(&sorted, 6, &pinned).unwrap();
    assert_eq!(amounts(&pairs), vec![3, 3]);
}

#[test]
fn pinned_amounts_beyond_the_budget_are_refused() {
    let guests = vec![guest_a(), guest_b()];
    let sorted = sort_guests(&guests);
    let mut pinned = HashMap::new();
    pinned.insert(0u64, 4u64);
    pinned.insert(1u64, 3u64);
    assert_eq!(solve(&sorted, 6, &pinned).err(), Some(AllocError::BudgetUnderflow));
    pinned.insert(1u64, 5u64);
    pinned.insert(0u64, 4u64);
    assert_eq!(solve(&sorted, 8, &pinned).err(), Some(AllocError::BudgetUnderflow));
    assert_eq!(amounts(&solve(&sorted, 9, &pinned).unwrap()), vec![4, 5]);
    let large = vec![guest(1, 0, &[]), guest(1, 1, &[]), guest(1, 2, &[])];
    let sorted = sort_guests(&large);
    pinned.insert(0u64, u64::MAX);
    pinned.insert(1u64, u64::MAX);
    assert_eq!(solve(&sorted, u64::MAX, &pinned).err(), Some(AllocError::BudgetUnderflow));
    pinned.insert(1u64, 0u64);
    assert_eq!(amounts(&solve(&sorted, u64::MAX, &pinned).unwrap()), vec![u64::MAX, 0, 0]);
}

#[test]
fn all_positions_pinned_returns_the_pinned_amounts() {
    let guests = vec![guest_a(), guest_b()];
    let sorted = sort_guests(&guests);
    let mut pinned = HashMap::new();
    pinned.insert(0u64, 3u64);
    pinned.insert(1u64, 0u64);
    let pairs = solve(&sorted, 6, &pinned).unwrap();
    assert_eq!(amounts(&pairs), vec![3, 0]);
    assert_eq!(welfare(&pairs), Ok(6));
}

#[test]
fn malformed_ranges_are_refused_before_solving() {
    let overlapping = vec![guest(2, 1, &[(0, 5), (3, 8)])];
    let sorted = sort_guests(&overlapping);
    assert_eq!(auction(&sorted, 6).err(), Some(AllocError::MalformedRanges));
    let unsorted = vec![guest_a(), guest(1, 1, &[(5, 8), (0, 3)])];
    let sorted = sort_guests(&unsorted);
    assert_eq!(solve(&sorted, 6, &HashMap::new()).err(), Some(AllocError::MalformedRanges));
    let inverted = vec![guest(1, 1, &[(5, 3)])];
    let sorted = sort_guests(&inverted);
    assert_eq!(auction(&sorted, 0).err(), Some(AllocError::MalformedRanges));
    let mut pinned = HashMap::new();
    pinned.insert(0u64, 100u64);
    assert_eq!(solve(&sorted, 6, &pinned).err(), Some(AllocError::MalformedRanges));
}

#[test]
fn no_guests_give_an_empty_allocation() {
    let guests: Vec<Guest> = Vec::new();
    let sorted = sort_guests(&guests);
    assert!(sorted.is_empty());
    assert!(naive_allocate(&sorted, 6).is_empty());
    let pairs = auction(&sorted, 6).unwrap();
    assert!(pairs.is_empty());
    assert_eq!(welfare(&pairs), Ok(0));
    assert!(find_violations(&pairs).is_empty());
}

#[test]
fn nothing_available_gives_nothing_to_anyone() {
    let guests = vec![guest_a(), guest_b(), guest(7, 0, &[]), guest(3, 2, &[(0, 1), (1, 9)])];
    let sorted = sort_guests(&guests);
    let pairs = auction(&sorted, 0).unwrap();
    assert_eq!(amounts(&pairs), vec![0, 0, 0, 0]);
    assert_eq!(welfare(&pairs), Ok(0));
}

#[test]
fn round_without_violations_is_the_naive_allocation() {
    let guests = vec![guest_a(), guest_b()];
    let sorted = sort_guests(&guests);
    for available in [0u64, 3, 4, 7, 9, 100] {
        let naive = naive_allocate(&sorted, available);
        assert!(find_violations(&pair_up(&sorted, &naive)).is_empty());
        let pairs = solve(&sorted, available, &HashMap::new()).unwrap();
        assert_eq!(amounts(&pairs), naive);
    }
    assert_eq!(naive_allocate(&sorted, 100), vec![4, 5]);
}

#[test]
fn same_round_twice_gives_the_same_allocation() {
    let guests = vec![guest(3, 0, &[(1, 4), (6, 9)]), guest(3, 0, &[(1, 4), (6, 9)]), guest_b()];
    let sorted = sort_guests(&guests);
    let first = auction(&sorted, 11).unwrap();
    let second = auction(&sorted, 11).unwrap();
    assert_eq!(amounts(&first), amounts(&second));
    assert_eq!(welfare(&first), welfare(&second));
}

#[test]
fn ties_between_branches_go_to_the_lower_end() {
    let guests = vec![guest(1, 0, &[(2, 5)]), guest(1, 0, &[])];
    let sorted = sort_guests(&guests);
    let pairs = auction(&sorted, 5).unwrap();
    assert_eq!(amounts(&pairs), vec![5, 0]);
    let pairs = auction(&sorted, 4).unwrap();
    assert_eq!(amounts(&pairs), vec![2, 2]);
    let both = vec![guest(1, 0, &[]), guest(1, 1, &[(1, 3)])];
    let sorted = sort_guests(&both);
    let mut pinned = HashMap::new();
    pinned.insert(0u64, 0u64);
    let pairs = solve(&sorted, 2, &pinned).unwrap();
    assert_eq!(amounts(&pairs), vec![0, 1]);
    let three = vec![guest(2, 0, &[(0, 2), (3, u64::MAX)]), guest(2, 1, &[(1, 3)])];
    let sorted = sort_guests(&three);
    let pairs = auction(&sorted, 5).unwrap();
    assert_eq!(amounts(&pairs), vec![2, 3]);
    let pairs = auction(&sorted, 4).unwrap();
    assert_eq!(amounts(&pairs), vec![3, 1]);
    let tied = vec![
        guest(3, 0, &[(0, 2), (2, 5), (5, 6), (6, u64::MAX)]),
        guest(2, 0, &[(0, 0), (2, 4), (4, 6), (9, u64::MAX)]),
        guest(2, 1, &[(0, 2), (4, 5), (8, u64::MAX)]),
    ];
    let sorted = sort_guests(&tied);
    assert_eq!(naive_allocate(&sorted, 9), vec![6, 3, 0]);
    let pairs = auction(&sorted, 9).unwrap();
    assert_eq!(amounts(&pairs), vec![5, 2, 2]);
    assert_eq!(welfare(&pairs), Ok(23));
    let higher = pair_up(&sorted, &vec![5, 4, 0]);
    assert_eq!(welfare(&higher), Ok(23));
    assert!(find_violations(&higher).is_empty());
}

#[test]
fn more_resource_never_lowers_the_welfare_of_a_sorted_round() {
    let guests = vec![
        guest(3, 0, &[(0, 1), (3, 6)]),
        guest(3, 1, &[(0, 1), (2, u64::MAX)]),
        guest(1, 0, &[(2, 2), (3, 4), (5, 6)]),
        guest(0, 0, &[(2, 6), (7, u64::MAX)]),
    ];
    let sorted = sort_guests(&guests);
    let mut before = 0u64;
    for available in 0u64..30 {
        let pairs = auction(&sorted, available).unwrap();
        let worth = welfare(&pairs).unwrap();
        assert!(worth >= before);
        assert!(amounts(&pairs).iter().sum::<u64>() <= available);
        assert!(find_violations(&pairs).is_empty());
        before = worth;
    }
    assert_eq!(before, 3 * 29);
}

#[test]
fn search_breaks_through_several_violations() {
    let guests = vec![guest(5, 0, &[(2, 6)]), guest(4, 0, &[(0, 3)]), guest(1, 0, &[(0, 2)])];
    let sorted = sort_guests(&guests);
    assert_eq!(naive_allocate(&sorted, 5), vec![5, 0, 0]);
    let pairs = auction(&sorted, 5).unwrap();
    assert_eq!(amounts(&pairs), vec![2, 3, 0]);
    assert_eq!(welfare(&pairs), Ok(22));
}

#[test]
fn branch_options_are_the_ends_of_the_range() {
    assert_eq!(two_options(Range { min: 0, max: 3 }, 6), vec![0, 3]);
    assert_eq!(two_options(Range { min: 0, max: 3 }, 3), vec![0, 3]);
    assert_eq!(two_options(Range { min: 0, max: 3 }, 2), vec![0]);
    assert_eq!(two_options(Range { min: 5, max: u64::MAX }, 6), vec![5]);
    assert_eq!(two_options(Range { min: 5, max: u64::MAX }, u64::MAX), vec![5, u64::MAX]);
}

#[test]
fn welfare_is_price_times_amount_summed() {
    let guests = vec![guest_a(), guest_b(), guest(7, 0, &[])];
    let sorted = sort_guests(&guests);
    let pairs = pair_up(&sorted, &vec![10, 3, 5]);
    assert_eq!(amounts(&pairs), vec![10, 3, 5]);
    assert_eq!(pairs[0].0.mem_unit_price, 7);
    assert_eq!(welfare(&pairs), Ok(7 * 10 + 2 * 3 + 1 * 5));
}

#[test]
fn welfare_beyond_a_quantity_is_an_error() {
    let guests = vec![guest(u64::MAX, 0, &[]), guest(2, 0, &[])];
    let sorted = sort_guests(&guests);
    assert_eq!(welfare(&pair_up(&sorted, &vec![1, 0])), Ok(u64::MAX));
    assert_eq!(welfare(&pair_up(&sorted, &vec![2, 0])), Err(AllocError::WelfareOverflow));
    assert_eq!(welfare(&pair_up(&sorted, &vec![1, 1])), Err(AllocError::WelfareOverflow));
}

#[test]
fn round_with_welfare_beyond_a_quantity_is_still_solved() {
    let guests = vec![guest(u64::MAX, 0, &[(1, 4)]), guest(u64::MAX - 1, 0, &[])];
    let sorted = sort_guests(&guests);
    let pairs = auction(&sorted, 3).unwrap();
    assert_eq!(amounts(&pairs), vec![1, 2]);
    assert_eq!(welfare(&pairs), Err(AllocError::WelfareOverflow));
}

#[test]
fn pairing_stops_at_the_shorter_list() {
    let guests = vec![guest_a(), guest_b()];
    let sorted = sort_guests(&guests);
    assert_eq!(pair_up(&sorted, &vec![1]).len(), 1);
    assert_eq!(pair_up(&sorted, &vec![1, 2, 3]).len(), 2);
    assert_eq!(amounts(&pair_up(&sorted, &vec![1, 2, 3])), vec![1, 2]);
}

#[test]
fn detector_lists_every_range_of_a_malformed_guest() {
    let guests = vec![guest(2, 0, &[(0, 5), (3, 8)]), guest_b(), guest(1, 2, &[(0, 3)])];
    let sorted = sort_guests(&guests);
    assert!(!all_ranges_well_formed(&sorted));
    let findings = find_violations(&pair_up(&sorted, &vec![4, 3, 2]));
    assert_eq!(findings.len(), 3);
    assert_eq!((findings[0].0, findings[0].1.min, findings[0].1.max), (0, 0, 5));
    assert_eq!((findings[1].0, findings[1].1.min, findings[1].1.max), (0, 3, 8));
    assert_eq!((findings[2].0, findings[2].1.min, findings[2].1.max), (2, 0, 3));
}

#[test]
fn naive_pass_gives_nothing_once_the_budget_is_spent() {
    let guests = vec![guest(9, 0, &[]), guest_a(), guest_b()];
    let sorted = sort_guests(&guests);
    assert_eq!(naive_allocate(&sorted, 6), vec![6, 0, 0]);
    assert_eq!(naive_allocate(&sorted, u64::MAX), vec![u64::MAX, 0, 0]);
    let capped = vec![guest_a(), guest_b(), guest(0, 0, &[])];
    let sorted = sort_guests(&capped);
    assert_eq!(naive_allocate(&sorted, 20), vec![4, 5, 11]);
    assert_eq!(naive_allocate(&sorted, u64::MAX), vec![4, 5, u64::MAX - 9]);
}
