use bin_packing::bin::Bin;

#[test]
fn new_bin_is_empty() {
    let bin = Bin::new(10);
    assert_eq!(bin.capacity(), 10);
    assert!(bin.items().is_empty());
    assert_eq!(bin.load(), 0);
    assert_eq!(bin.remaining_capacity(), 10);
}

#[test]
fn can_fit_is_exact_at_the_boundary() {
    let mut bin = Bin::new(10);
    bin.add_item(3);
    bin.add_item(6);
    assert!(bin.can_fit(0));
    assert!(bin.can_fit(1));
    assert!(!bin.can_fit(2));
    assert!(!bin.can_fit(u32::MAX));
}

#[test]
fn add_item_appends_in_arrival_order() {
    let mut bin = Bin::new(10);
    bin.add_item(4);
    bin.add_item(1);
    bin.add_item(5);
    assert_eq!(bin.items(), &[4, 1, 5]);
    assert_eq!(bin.load(), 10);
    assert_eq!(bin.remaining_capacity(), 0);
    assert_eq!(bin.capacity(), 10);
}

#[test]
fn try_add_checks_and_appends_in_one_step() {
    let mut bin = Bin::new(10);
    assert!(bin.try_add(7));
    assert!(!bin.try_add(4));
    assert_eq!(bin.items(), &[7]);
    assert!(bin.try_add(3));
    assert_eq!(bin.items(), &[7, 3]);
    assert!(!bin.try_add(1));
    assert!(bin.try_add(0));
    assert_eq!(bin.items(), &[7, 3, 0]);
    assert_eq!(bin.load(), 10);
}

#[test]
fn bin_without_capacity_takes_only_weightless_items() {
    let mut bin = Bin::new(0);
    assert!(!bin.can_fit(1));
    assert!(!bin.try_add(1));
    assert!(bin.try_add(0));
    assert_eq!(bin.items(), &[0]);
    assert_eq!(bin.remaining_capacity(), 0);
}

#[test]
fn load_of_a_full_width_bin() {
    let mut bin = Bin::new(u32::MAX);
    bin.add_item(u32::MAX - 5);
    assert_eq!(bin.remaining_capacity(), 5);
    assert!(bin.can_fit(5));
    assert!(!bin.can_fit(6));
    bin.add_item(5);
    assert_eq!(bin.load(), u32::MAX);
}
