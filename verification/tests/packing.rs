use bin_packing::bin::Bin;
use bin_packing::packer::{first_fit, place, PackError};

fn layout(bins: &[Bin]) -> Vec<Vec<u32>> {
    bins.iter().map(|bin| bin.items().to_vec()).collect()
}

#[test]
fn mixed_items_follow_first_fit() {
    let bins = first_fit(&[3, 6, 2, 1, 5, 7, 2, 4, 1, 9], 10).unwrap();
    assert_eq!(
        layout(&bins),
        vec![vec![3, 6, 1], vec![2, 5, 2, 1], vec![7], vec![4], vec![9]]
    );
    for bin in &bins {
        assert_eq!(bin.capacity(), 10);
    }
}

#[test]
fn empty_input_gives_no_bins() {
    let bins = first_fit(&[], 10).unwrap();
    assert!(bins.is_empty());
}

#[test]
fn single_oversized_item_is_reported() {
    let outcome = first_fit(&[15], 10);
    assert_eq!(
        outcome.unwrap_err(),
        PackError::OversizedItem { index: 0, weight: 15 }
    );
}

#[test]
fn identical_items_pair_up() {
    let bins = first_fit(&[5, 5, 5, 5], 10).unwrap();
    assert_eq!(layout(&bins), vec![vec![5, 5], vec![5, 5]]);
}

#[test]
fn exact_fill_is_packed() {
    let bins = first_fit(&[4, 4, 4, 4], 8).unwrap();
    assert_eq!(layout(&bins), vec![vec![4, 4], vec![4, 4]]);
    assert_eq!(bins[0].load(), 8);
    assert_eq!(bins[0].remaining_capacity(), 0);
}

#[test]
fn zero_capacity_is_invalid() {
    assert_eq!(
        first_fit(&[1, 2, 3], 0).unwrap_err(),
        PackError::InvalidCapacity
    );
    assert_eq!(first_fit(&[], 0).unwrap_err(), PackError::InvalidCapacity);
    assert_eq!(first_fit(&[0], 0).unwrap_err(), PackError::InvalidCapacity);
}

#[test]
fn first_oversized_item_is_the_one_reported() {
    assert_eq!(
        first_fit(&[3, 12, 15, 2], 10).unwrap_err(),
        PackError::OversizedItem { index: 1, weight: 12 }
    );
    assert_eq!(
        first_fit(&[10, 10, 11], 10).unwrap_err(),
        PackError::OversizedItem { index: 2, weight: 11 }
    );
}

#[test]
fn item_equal_to_capacity_fills_a_bin() {
    let bins = first_fit(&[10, 1, 10], 10).unwrap();
    assert_eq!(layout(&bins), vec![vec![10], vec![1], vec![10]]);
}

#[test]
fn largest_weights_do_not_overflow() {
    let bins = first_fit(&[u32::MAX, 1, u32::MAX - 1, u32::MAX], u32::MAX).unwrap();
    assert_eq!(
        layout(&bins),
        vec![vec![u32::MAX], vec![1, u32::MAX - 1], vec![u32::MAX]]
    );
    assert_eq!(bins[1].load(), u32::MAX);
}

#[test]
fn weightless_items_join_the_first_bin() {
    let bins = first_fit(&[0, 7, 0, 3, 0, 1], 10).unwrap();
    assert_eq!(layout(&bins), vec![vec![0, 7, 0, 3, 0], vec![1]]);
}

#[test]
fn items_are_not_sorted_before_packing() {
    // Sorted by falling weight these would need two bins; in arrival order
    // first-fit opens three.
    let bins = first_fit(&[4, 4, 6, 6], 10).unwrap();
    assert_eq!(layout(&bins), vec![vec![4, 4], vec![6], vec![6]]);
}

#[test]
fn every_bin_stays_within_capacity() {
    let items = [7, 3, 8, 2, 9, 1, 6, 4, 5, 5, 10, 2, 2, 2];
    let bins = first_fit(&items, 10).unwrap();
    for bin in &bins {
        let sum: u64 = bin.items().iter().map(|w| u64::from(*w)).sum();
        assert!(sum <= 10);
        assert_eq!(u64::from(bin.load()), sum);
        assert!(!bin.items().is_empty());
    }
}

#[test]
fn every_item_lands_in_one_bin() {
    let items = [3, 6, 2, 1, 5, 7, 2, 4, 1, 9];
    let bins = first_fit(&items, 10).unwrap();
    let mut packed: Vec<u32> = layout(&bins).into_iter().flatten().collect();
    let mut given = items.to_vec();
    packed.sort();
    given.sort();
    assert_eq!(packed, given);
}

#[test]
fn repeated_runs_agree() {
    let items = [3, 6, 2, 1, 5, 7, 2, 4, 1, 9];
    let first = first_fit(&items, 10).unwrap();
    let second = first_fit(&items, 10).unwrap();
    assert_eq!(layout(&first), layout(&second));
    assert_eq!(first_fit(&[11], 10).unwrap_err(), first_fit(&[11], 10).unwrap_err());
}

#[test]
fn bins_keep_arrival_order() {
    // Distinct weights, so that a weight names its arrival position.
    let items = [6, 1, 5, 2, 4, 3];
    let bins = first_fit(&items, 8).unwrap();
    assert_eq!(layout(&bins), vec![vec![6, 1], vec![5, 2], vec![4, 3]]);
    for bin in &bins {
        let at: Vec<usize> = bin
            .items()
            .iter()
            .map(|w| items.iter().position(|x| x == w).unwrap())
            .collect();
        assert!(at.windows(2).all(|pair| pair[0] < pair[1]));
    }
}

#[test]
fn place_uses_the_first_bin_with_room() {
    let mut bins = first_fit(&[8, 5, 9], 10).unwrap();
    assert_eq!(layout(&bins), vec![vec![8], vec![5], vec![9]]);
    assert!(place(&mut bins, 2, 10));
    assert_eq!(layout(&bins), vec![vec![8, 2], vec![5], vec![9]]);
    assert!(place(&mut bins, 1, 10));
    assert_eq!(layout(&bins), vec![vec![8, 2], vec![5, 1], vec![9]]);
}

#[test]
fn place_opens_a_bin_when_none_has_room() {
    let mut bins: Vec<Bin> = Vec::new();
    assert!(place(&mut bins, 6, 10));
    assert!(place(&mut bins, 6, 10));
    assert_eq!(layout(&bins), vec![vec![6], vec![6]]);
    assert_eq!(bins[1].capacity(), 10);
}

#[test]
fn place_leaves_the_bins_alone_when_the_item_is_too_heavy() {
    let mut bins = first_fit(&[8, 5], 10).unwrap();
    assert!(!place(&mut bins, 11, 10));
    assert_eq!(layout(&bins), vec![vec![8], vec![5]]);
    // A roomier bin among the others still takes it.
    bins.push(Bin::new(20));
    assert!(place(&mut bins, 11, 10));
    assert_eq!(layout(&bins), vec![vec![8], vec![5], vec![11]]);
}
