use int_range_check::MergeRange;
use int_range_check::RangeSet;

#[test]
fn new_is_empty() {
    assert_eq!(RangeSet::<i16>::new().into_vec(), Vec::new());
}

#[test]
fn single_contains_element() {
    let mut range_set = RangeSet::new();
    let range = MergeRange::from_range_to(1i16);
    range_set.push(range);
    assert_eq!(range_set.into_vec(), vec![range]);
}

#[test]
fn separate_is_sorted() {
    let range1 = MergeRange::from_range(1u16, 5u16);
    let range2 = MergeRange::from_range_from(20u16);

    let mut range_set = RangeSet::new();
    range_set.push(range1);
    range_set.push(range2);
    assert_eq!(range_set.into_vec(), vec![range1, range2]);

    range_set = RangeSet::new();
    range_set.push(range2);
    range_set.push(range1);
    assert_eq!(range_set.into_vec(), vec![range1, range2]);
}

#[test]
fn adjacent_is_combined() {
    let range1 = MergeRange::from_range(-2i8, 3);
    let range2 = MergeRange::from_range(4i8, 10);
    let merged = MergeRange::from_range(-2i8, 10);

    let mut range_set = RangeSet::new();
    range_set.push(range1);
    range_set.push(range2);
    assert_eq!(range_set.into_vec(), vec![merged]);

    range_set = RangeSet::new();
    range_set.push(range2);
    range_set.push(range1);
    assert_eq!(range_set.into_vec(), vec![merged]);
}

#[test]
fn overlap_is_combined() {
    let range1 = MergeRange::from_range(4u32, 7);
    let range2 = MergeRange::from_range(6u32, 32);
    let merged = MergeRange::from_range(4u32, 32);

    let mut range_set = RangeSet::new();
    range_set.push(range1);
    range_set.push(range2);
    assert_eq!(range_set.into_vec(), vec![merged]);

    range_set = RangeSet::new();
    range_set.push(range2);
    range_set.push(range1);
    assert_eq!(range_set.into_vec(), vec![merged]);
}

#[test]
fn from_vec_yields_ranges() {
    let range_vec = vec![
        MergeRange::from_range(6i64, 16),
        MergeRange::from_range_to(-10i64),
        MergeRange::from_range(33i64, 64),
        MergeRange::from_range(4i64, 7),
    ];
    let mut push_range_set = RangeSet::new();
    for range in range_vec.iter() {
        push_range_set.push(*range);
    }

    let vec_range_set = RangeSet::from_vec(&range_vec);
    assert_eq!(vec_range_set, push_range_set);
}

#[test]
fn push_with_overlap_tracks_overlap() {
    let range_vec = vec![
        MergeRange::from_range(6i8, 16),
        MergeRange::from_range_to(-10i8),
        MergeRange::from_range_from(15i8),
        MergeRange::from_range(4i8, 7),
    ];
    let overlap_vec = vec![
        MergeRange::from_range(6i8, 7),
        MergeRange::from_range(15i8, 16),
    ];

    let mut range_set = RangeSet::new();
    let mut overlap_set = RangeSet::new();
    for &range in range_vec.iter() {
        range_set.push_with_overlap(&mut overlap_set, range);
    }
    assert_eq!(range_set, RangeSet::from_vec(&range_vec));
    assert_eq!(overlap_set, RangeSet::from_vec(&overlap_vec));
}

#[test]
fn from_vec_with_overlap_tracks_overlap() {
    let range_vec = vec![
        MergeRange::from_range(6i8, 16),
        MergeRange::from_range_to(-10i8),
        MergeRange::from_range_from(15i8),
        MergeRange::from_range(4i8, 7),
    ];
    let overlap_vec = vec![
        MergeRange::from_range(6i8, 7),
        MergeRange::from_range(15i8, 16),
    ];

    let (range_set, overlap_set) = RangeSet::from_vec_with_overlap(&range_vec);
    assert_eq!(range_set, RangeSet::from_vec(&range_vec));
    assert_eq!(overlap_set, RangeSet::from_vec(&overlap_vec));
}

#[test]
fn complement_yields_correct_set() {
    let range_vec = vec![MergeRange::from_range(10u32, 16)];
    let complement_vec = vec![
        MergeRange::from_range_to(9u32),
        MergeRange::from_range_from(17u32),
    ];
    let range_set = RangeSet::from_vec(&range_vec);
    assert_eq!(range_set.complement(), RangeSet::from_vec(&complement_vec));
    assert_eq!(range_set.complement().complement(), range_set);
}

#[test]
fn complement_range_full() {
    let range_full_vec = vec![MergeRange::<u64>::range_full()];
    let range_set = RangeSet::new();
    assert_eq!(range_set.complement(), RangeSet::from_vec(&range_full_vec));
    assert_eq!(range_set.complement().complement(), range_set);
}
