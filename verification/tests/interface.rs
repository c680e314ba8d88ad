use int_range_check::IntRange;
use int_range_check::MergeRange;

#[test]
fn bound_convert_merge_range() {
    assert_eq!(
        IntRange::Bound(2u8, 5u8).to_merge_range(),
        Some(MergeRange::from_range(2u8, 5u8))
    );
    assert_eq!(
        IntRange::Bound(10u8, 10u8).to_merge_range(),
        Some(MergeRange::from_range(10u8, 10u8))
    );
}

#[test]
fn empty_bound_convert_merge_range() {
    assert_eq!(IntRange::Bound(5u8, 1u8).to_merge_range(), None);
}

#[test]
fn to_convert_merge_range() {
    assert_eq!(
        IntRange::To(2u8).to_merge_range(),
        Some(MergeRange::from_range_to(2u8))
    );
}

#[test]
fn from_convert_merge_range() {
    assert_eq!(
        IntRange::From(2u8).to_merge_range(),
        Some(MergeRange::from_range_from(2u8))
    );
}

#[test]
fn full_convert_merge_range() {
    assert_eq!(
        IntRange::Full::<u8>.to_merge_range(),
        Some(MergeRange::range_full())
    );
}

#[test]
fn merge_range_convert_bound() {
    let merge_range = MergeRange::from_range(-5i32, -2i32);
    assert_eq!(
        IntRange::from_merge_range(merge_range),
        IntRange::Bound(-5i32, -2i32)
    );
}

#[test]
fn merge_range_convert_to() {
    let merge_range = MergeRange::from_range_to(-2i32);
    assert_eq!(IntRange::from_merge_range(merge_range), IntRange::To(-2i32));
}

#[test]
fn merge_range_convert_from() {
    let merge_range = MergeRange::from_range_from(-5i32);
    assert_eq!(
        IntRange::from_merge_range(merge_range),
        IntRange::From(-5i32)
    );
}

#[test]
fn merge_range_convert_full() {
    let merge_range = MergeRange::<i32>::range_full();
    assert_eq!(IntRange::from_merge_range(merge_range), IntRange::Full);
}
