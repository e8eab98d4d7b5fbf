use auto_water::partitions::{find_partition, partition_lookup_fits};

const TABLE: &str = "# Name,   Type, SubType, Offset,  Size, Flags\n\
nvs,      data, nvs,     0x9000,  0x4000,\n\
otadata,  data, ota,     0xd000,  0x2000,\n\
phy_init, data, phy,     0xf000,  0x1000,\n\
ota_0,    app,  ota_0,   0x10000, 0x180000,\n\
ota_1,    app,  ota_1,   0x190000,0x180000,\n";

#[test]
fn finds_entries() {
    assert_eq!(find_partition(TABLE, "nvs"), (0x9000, 0x4000));
    assert_eq!(find_partition(TABLE, "otadata"), (0xd000, 0x2000));
    assert_eq!(find_partition(TABLE, "ota_1"), (0x190000, 0x180000));
}

#[test]
fn missing_entry_is_zero() {
    assert_eq!(find_partition(TABLE, "factory"), (0, 0));
    assert_eq!(find_partition(TABLE, "ota"), (0, 0));
    assert_eq!(find_partition("", "nvs"), (0, 0));
}

#[test]
fn comment_lines_are_skipped() {
    assert_eq!(find_partition("#nvs, data, nvs, 0x1, 0x2\nnvs, data, nvs, 0x3, 0x4", "nvs"), (3, 4));
}

#[test]
fn last_line_without_newline_and_short_lines() {
    assert_eq!(find_partition("a, b, c, 10, 20", "a"), (0x10, 0x20));
    assert_eq!(find_partition("a, b, c", "a"), (0, 0));
    assert_eq!(find_partition("a, b, c, 0X1f", "a"), (0x1f, 0));
}

#[test]
fn hex_quirks() {
    // A lone "0x" is read digit by digit; a trailing space is a zero digit.
    assert_eq!(find_partition("a,,,0x,0xA ", "a"), (0, 0xa0));
    // First match wins, later duplicates are ignored.
    assert_eq!(find_partition("a,,,1,2\na,,,3,4", "a"), (1, 2));
    // Leading spaces are skipped before the name, trailing ones are not.
    assert_eq!(find_partition("  a,,,1,2", "a"), (1, 2));
    assert_eq!(find_partition("a ,,,1,2", "a"), (0, 0));
}

#[test]
fn lookup_fit_check() {
    assert!(partition_lookup_fits(TABLE, "nvs"));
    assert!(partition_lookup_fits(TABLE, "missing"));
    assert!(!partition_lookup_fits("a,,,0x1ffffffffffffffff,1", "a"));
    assert!(!partition_lookup_fits("b,,,1,100000000000000000\na,,,1,1", "a"));
    assert!(partition_lookup_fits("a,,,1,1\nb,,,1,100000000000000000", "a"));
    assert!(partition_lookup_fits("#b,,,1,100000000000000000\na,,,1,1", "a"));
}
