use extent_overlap::{sorted_physical_ranges, ByteRange, Extent, ExtentList};

fn ranges(pairs: &[(u64, u64)]) -> Vec<ByteRange> {
    pairs.iter().map(|&(start, end)| ByteRange { start, end }).collect()
}

fn extents(pairs: &[(u64, u64)]) -> Vec<Extent> {
    pairs.iter().map(|&(physical, length)| Extent { physical, length }).collect()
}

#[test]
fn extent_becomes_half_open_range() {
    let extent = Extent { physical: 4096, length: 8192 };
    assert_eq!(extent.to_range(), Some(ByteRange { start: 4096, end: 12288 }));
}

#[test]
fn extent_may_end_at_the_last_offset() {
    let extent = Extent { physical: u64::MAX - 10, length: 10 };
    assert_eq!(extent.to_range(), Some(ByteRange { start: u64::MAX - 10, end: u64::MAX }));
}

#[test]
fn extent_beyond_the_last_offset_has_no_range() {
    assert_eq!(Extent { physical: u64::MAX - 10, length: 11 }.to_range(), None);
    assert_eq!(Extent { physical: u64::MAX, length: u64::MAX }.to_range(), None);
}

#[test]
fn ranges_come_out_sorted_by_start() {
    let sorted = sorted_physical_ranges(&extents(&[(300, 10), (100, 50), (200, 1)]));
    assert_eq!(sorted, Some(ranges(&[(100, 150), (200, 201), (300, 310)])));
}

#[test]
fn equal_starts_are_sorted_by_end() {
    let sorted = sorted_physical_ranges(&extents(&[(100, 50), (100, 10), (100, 30), (0, 500)]));
    assert_eq!(sorted, Some(ranges(&[(0, 500), (100, 110), (100, 130), (100, 150)])));
}

#[test]
fn sorting_keeps_repeated_and_empty_extents() {
    let sorted = sorted_physical_ranges(&extents(&[(8, 2), (8, 0), (8, 2), (0, 0)]));
    assert_eq!(sorted, Some(ranges(&[(0, 0), (8, 8), (8, 10), (8, 10)])));
}

#[test]
fn no_extents_give_no_ranges() {
    assert_eq!(sorted_physical_ranges(&Vec::new()), Some(Vec::new()));
}

#[test]
fn sorting_fails_on_an_extent_out_of_reach() {
    let given = extents(&[(0, 10), (u64::MAX, 1), (20, 5)]);
    assert_eq!(sorted_physical_ranges(&given), None);
}

#[test]
fn valid_list_is_taken_as_it_is() {
    let given = ranges(&[(0, 10), (10, 20), (50, 60)]);
    let list = ExtentList::new(given.clone()).expect("a valid extent list");
    assert_eq!(list.ranges(), &given);
}

#[test]
fn empty_list_is_valid() {
    let list = ExtentList::new(Vec::new()).expect("a valid extent list");
    assert!(list.ranges().is_empty());
}

#[test]
fn zero_length_range_is_rejected() {
    assert!(ExtentList::new(ranges(&[(5, 5)])).is_none());
    assert!(ExtentList::new(ranges(&[(0, 4), (5, 5), (6, 9)])).is_none());
}

#[test]
fn reversed_range_is_rejected() {
    assert!(ExtentList::new(ranges(&[(9, 3)])).is_none());
}

#[test]
fn overlapping_ranges_are_rejected() {
    assert!(ExtentList::new(ranges(&[(0, 10), (9, 20)])).is_none());
    assert!(ExtentList::new(ranges(&[(0, 10), (0, 10)])).is_none());
    assert!(ExtentList::new(ranges(&[(0, 100), (10, 20)])).is_none());
}

#[test]
fn unsorted_ranges_are_rejected() {
    assert!(ExtentList::new(ranges(&[(10, 20), (0, 10)])).is_none());
}

#[test]
fn extents_in_any_order_make_a_sorted_list() {
    let list = ExtentList::from_extents(&extents(&[(300, 10), (100, 50), (150, 50), (0, 1)]))
        .expect("disjoint extents");
    assert_eq!(list.ranges(), &ranges(&[(0, 1), (100, 150), (150, 200), (300, 310)]));
}

#[test]
fn no_extents_make_the_empty_list() {
    let list = ExtentList::from_extents(&Vec::new()).expect("no extents");
    assert!(list.ranges().is_empty());
}

#[test]
fn overlapping_extents_make_no_list() {
    assert!(ExtentList::from_extents(&extents(&[(100, 50), (0, 101)])).is_none());
    assert!(ExtentList::from_extents(&extents(&[(100, 50), (100, 50)])).is_none());
}

#[test]
fn empty_extent_makes_no_list() {
    assert!(ExtentList::from_extents(&extents(&[(100, 50), (500, 0)])).is_none());
}

#[test]
fn extent_out_of_reach_makes_no_list() {
    assert!(ExtentList::from_extents(&extents(&[(100, 50), (u64::MAX, 2)])).is_none());
}
