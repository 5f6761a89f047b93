use drive_inventory::format_size;

#[test]
fn zero_bytes_formats_as_zero_b() {
    assert_eq!(format_size(0), "0 B");
}

#[test]
fn small_sizes_use_the_byte_unit() {
    assert_eq!(format_size(1), "1.00 B");
    assert_eq!(format_size(5), "5.00 B");
    assert_eq!(format_size(1023), "1023.00 B");
}

#[test]
fn fifteen_hundred_thirty_six_bytes_is_one_and_a_half_kib() {
    assert_eq!(format_size(1536), "1.50 KiB");
}

#[test]
fn exactly_fifty_mib_formats_with_two_decimals() {
    assert_eq!(format_size(50 * (1 << 20)), "50.00 MiB");
}

#[test]
fn largest_unit_where_value_is_at_least_one_wins() {
    assert_eq!(format_size(1 << 10), "1.00 KiB");
    assert_eq!(format_size(1 << 20), "1.00 MiB");
    assert_eq!(format_size(1 << 30), "1.00 GiB");
    assert_eq!(format_size(3 * (1 << 30) + (1 << 29)), "3.50 GiB");
}

#[test]
fn value_just_under_a_unit_rounds_up_within_the_smaller_unit() {
    // 1 MiB - 1 byte stays in KiB and rounds to 1024.00.
    assert_eq!(format_size((1 << 20) - 1), "1024.00 KiB");
}
