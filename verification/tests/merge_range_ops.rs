use int_range_check::MergeRange;
use int_range_check::MergeResult;

#[test]
fn unsigned_range_conversion() {
    assert_eq!(
        MergeRange::from_range(0u32, 20u32).to_range(),
        (0u32, 20u32)
    );
}

#[test]
fn signed_range_conversion() {
    assert_eq!(
        MergeRange::from_range(-5i64, 5i64).to_range(),
        (-5i64, 5i64)
    );
    assert_eq!(MergeRange::from_range(0i32, 0i32).to_range(), (0i32, 0i32));
}

#[test]
fn range_to_conversion() {
    assert_eq!(MergeRange::from_range_to(2i8).to_range(), (i8::MIN, 2i8));
}

#[test]
fn range_from_conversion() {
    assert_eq!(MergeRange::from_range_from(2u8).to_range(), (2u8, u8::MAX));
}

#[test]
fn range_full_conversion() {
    assert_eq!(
        MergeRange::<i32>::range_full().to_range(),
        (i32::MIN, i32::MAX)
    );
}

#[test]
fn separate_ranges_not_merged() {
    let x = MergeRange::from_range(1i32, 2);
    let y = MergeRange::from_range(4i32, 5);
    assert_eq!(x.merge(y), MergeResult::Separate);
}

#[test]
fn adjacent_ranges_concatenated() {
    let x = MergeRange::from_range(1i32, 2);
    let y = MergeRange::from_range(3i32, 5);
    assert_eq!(
        x.merge(y),
        MergeResult::Adjacent(MergeRange::from_range(1i32, 5))
    );
    assert_eq!(y.merge(x), x.merge(y));
}

#[test]
fn adjacent_ranges_at_range_edge_concatenated() {
    let x = MergeRange::from_range_to(1u64);
    let y = MergeRange::from_range_from(2u64);
    assert_eq!(x.merge(y), MergeResult::Adjacent(MergeRange::range_full()));
    assert_eq!(y.merge(x), x.merge(y));
}

#[test]
fn overlap_ranges_merged_with_overlap() {
    let x = MergeRange::from_range(-1i8, 2);
    let y = MergeRange::from_range(0i8, 5);
    assert_eq!(
        x.merge(y),
        MergeResult::Overlap(
            MergeRange::from_range(-1i8, 5),
            MergeRange::from_range(0i8, 2)
        )
    );
    assert_eq!(y.merge(x), x.merge(y));
}

#[test]
fn contained_range_merged_with_overlap() {
    let x = MergeRange::from_range(-1i8, 5);
    let y = MergeRange::from_range(0i8, 2);
    assert_eq!(
        x.merge(y),
        MergeResult::Overlap(
            MergeRange::from_range(-1i8, 5),
            MergeRange::from_range(0i8, 2)
        )
    );
    assert_eq!(y.merge(x), x.merge(y));
}
