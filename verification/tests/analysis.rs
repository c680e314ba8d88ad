use int_range_check::uncovered_and_overlapped;
use int_range_check::IntRange;
use int_range_check::MergeRange;
use int_range_check::RangeSet;

#[test]
fn signed_inputs_report_low_gap_and_overlap() {
    let ranges: Vec<IntRange<i32>> = vec![IntRange::Bound(0, 5), IntRange::From(3)];
    let (uncovered, overlapping) = uncovered_and_overlapped(&ranges);
    assert_eq!(uncovered, vec![IntRange::To(-1)]);
    assert_eq!(overlapping, vec![IntRange::Bound(3, 5)]);
}

#[test]
fn open_ended_inputs_leave_middle_gap() {
    let ranges: Vec<IntRange<u8>> = vec![IntRange::To(5), IntRange::From(250)];
    let (uncovered, overlapping) = uncovered_and_overlapped(&ranges);
    assert_eq!(uncovered, vec![IntRange::Bound(6, 249)]);
    assert_eq!(overlapping, Vec::new());
}

#[test]
fn boundary_bounds_leave_middle_gap() {
    let ranges: Vec<IntRange<u8>> = vec![IntRange::Bound(0, 5), IntRange::Bound(250, 255)];
    let (uncovered, overlapping) = uncovered_and_overlapped(&ranges);
    assert_eq!(uncovered, vec![IntRange::Bound(6, 249)]);
    assert_eq!(overlapping, Vec::new());
}

#[test]
fn adjacent_bounds_cover_without_overlap() {
    let ranges: Vec<IntRange<i8>> = vec![IntRange::Bound(-2, 3), IntRange::Bound(4, 10)];
    let (uncovered, overlapping) = uncovered_and_overlapped(&ranges);
    assert_eq!(uncovered, vec![IntRange::To(-3), IntRange::From(11)]);
    assert_eq!(overlapping, Vec::new());
}

#[test]
fn overlapping_bounds_report_shared_part() {
    let ranges: Vec<IntRange<u32>> = vec![IntRange::Bound(4, 7), IntRange::Bound(6, 32)];
    let (uncovered, overlapping) = uncovered_and_overlapped(&ranges);
    assert_eq!(
        uncovered,
        vec![IntRange::To(3), IntRange::From(33)]
    );
    assert_eq!(overlapping, vec![IntRange::Bound(6, 7)]);
}

#[test]
fn no_inputs_leave_whole_domain_uncovered() {
    let ranges: Vec<IntRange<u8>> = Vec::new();
    let (uncovered, overlapping) = uncovered_and_overlapped(&ranges);
    assert_eq!(uncovered, vec![IntRange::Full]);
    assert_eq!(overlapping, Vec::new());
}

#[test]
fn empty_bound_contributes_nothing() {
    let ranges: Vec<IntRange<u8>> = vec![IntRange::Bound(5, 1)];
    let (uncovered, overlapping) = uncovered_and_overlapped(&ranges);
    assert_eq!(uncovered, vec![IntRange::Full]);
    assert_eq!(overlapping, Vec::new());
}

#[test]
fn full_cover_leaves_nothing_uncovered() {
    let ranges: Vec<IntRange<u64>> = vec![IntRange::From(0)];
    let (uncovered, overlapping) = uncovered_and_overlapped(&ranges);
    assert_eq!(uncovered, Vec::new());
    assert_eq!(overlapping, Vec::new());
}

#[test]
fn duplicate_full_domains_overlap_everywhere() {
    let ranges: Vec<IntRange<i64>> = vec![IntRange::Full, IntRange::Full];
    let (uncovered, overlapping) = uncovered_and_overlapped(&ranges);
    assert_eq!(uncovered, Vec::new());
    assert_eq!(overlapping, vec![IntRange::Full]);
}

#[test]
fn signed_extremes_survive_the_round_trip() {
    assert_eq!(
        MergeRange::from_range(i64::MIN, i64::MAX).to_range(),
        (i64::MIN, i64::MAX)
    );
    assert_eq!(
        MergeRange::from_range(u64::MAX, u64::MAX).to_range(),
        (u64::MAX, u64::MAX)
    );
    assert_eq!(
        IntRange::from_merge_range(MergeRange::from_range(i64::MIN, -1i64)),
        IntRange::To(-1i64)
    );
}

#[test]
fn repeated_push_is_idempotent_and_reports_whole_range() {
    let range = MergeRange::from_range(3u8, 8);

    let mut once = RangeSet::new();
    once.push(range);

    let mut twice = RangeSet::new();
    let mut overlap_set = RangeSet::new();
    twice.push_with_overlap(&mut overlap_set, range);
    assert_eq!(overlap_set.clone().into_vec(), Vec::new());
    twice.push_with_overlap(&mut overlap_set, range);

    assert_eq!(twice, once);
    assert_eq!(overlap_set.into_vec(), vec![range]);
}

#[test]
fn insertions_keep_the_collection_sorted_and_gapped() {
    let range_vec = vec![
        MergeRange::from_range(40i16, 50),
        MergeRange::from_range(-3i16, 4),
        MergeRange::from_range(6i16, 10),
        MergeRange::from_range(0i16, 7),
        MergeRange::from_range(52i16, 60),
    ];
    let range_set = RangeSet::from_vec(&range_vec);
    let out = range_set.into_vec();
    assert_eq!(out.len(), 3);
    for pair in out.windows(2) {
        let (_, first_hi) = pair[0].to_range();
        let (second_lo, _) = pair[1].to_range();
        assert!(first_hi < second_lo - 1);
    }
    assert_eq!(
        out,
        vec![
            MergeRange::from_range(-3i16, 10),
            MergeRange::from_range(40i16, 50),
            MergeRange::from_range(52i16, 60),
        ]
    );
}
