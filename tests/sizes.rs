use collection_generator::units::fmt_bytes;
use collection_generator::vocabulary::{voc_size, DEFAULT_GROWTH_CONSTANT};

#[test]
fn heaps_law_square_root() {
    assert_eq!(voc_size(DEFAULT_GROWTH_CONSTANT, 10_000), 4500);
    assert_eq!(voc_size(45, 2), 63);
    assert_eq!(voc_size(45, 0), 0);
    assert_eq!(voc_size(45, 1), 45);
    assert_eq!(voc_size(1, 99), 9);
    assert_eq!(voc_size(45, 1_000_000_000), 1_423_024);
    assert_eq!(voc_size(u32::MAX, usize::MAX), 18446744069414584319);
}

#[test]
fn byte_counts_in_units() {
    assert_eq!(fmt_bytes(0), "0b");
    assert_eq!(fmt_bytes(999), "999b");
    assert_eq!(fmt_bytes(1000), "1Kb");
    assert_eq!(fmt_bytes(1500), "1Kb");
    assert_eq!(fmt_bytes(2_000_000), "2Mb");
    assert_eq!(fmt_bytes(5_300_000_000), "5Gb");
    assert_eq!(fmt_bytes(3_000_000_000_000), "3Tb");
    assert_eq!(fmt_bytes(42_000_000_000_000), "42Tb");
}
