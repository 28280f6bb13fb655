use codecrafters_dns_server::buffer_helpers::{BufferGetters, BufferSetters};

#[test]
fn get_bit_counts_from_the_most_significant_bit() {
    let buf = [0b1000_0000u8, 0b0000_0001];
    assert_eq!((&buf[..]).get_bit(0), 1);
    assert_eq!((&buf[..]).get_bit(1), 0);
    assert_eq!((&buf[..]).get_bit(7), 0);
    assert_eq!((&buf[..]).get_bit(14), 0);
    assert_eq!((&buf[..]).get_bit(15), 1);
}

#[test]
fn get_u4_reads_both_nibbles() {
    let buf = [0xA5u8];
    assert_eq!((&buf[..]).get_u4(0), 0xA);
    assert_eq!((&buf[..]).get_u4(4), 0x5);
}

#[test]
fn get_u4_reads_a_field_that_starts_inside_a_byte() {
    // bits 1..=4 of 0b0101_1000 are 1011
    let buf = [0u8, 0b0101_1000];
    assert_eq!((&buf[..]).get_u4(9), 0b1011);
}

#[test]
fn get_u16_and_get_u32_are_big_endian() {
    let buf = [0x12u8, 0x34, 0x56, 0x78, 0x9A];
    assert_eq!((&buf[..]).get_u16(0), 0x1234);
    assert_eq!((&buf[..]).get_u16(8), 0x3456);
    assert_eq!((&buf[..]).get_u32(0), 0x1234_5678);
    assert_eq!((&buf[..]).get_u32(8), 0x3456_789A);
}

#[test]
fn put_bit_sets_and_clears_one_bit() {
    let mut buf = [0u8, 0xFF];
    buf[..].put_bit(3, 1);
    assert_eq!(buf, [0b0001_0000, 0xFF]);
    buf[..].put_bit(8, 0);
    assert_eq!(buf, [0b0001_0000, 0x7F]);
    buf[..].put_bit(3, 0);
    assert_eq!(buf, [0, 0x7F]);
}

#[test]
fn put_bit_uses_only_the_lowest_bit_of_the_value() {
    let mut buf = [0u8];
    buf[..].put_bit(6, 2);
    assert_eq!(buf, [0]);
    buf[..].put_bit(6, 3);
    assert_eq!(buf, [0b0000_0010]);
}

#[test]
fn put_u4_writes_a_nibble_and_keeps_the_other() {
    let mut buf = [0xFFu8];
    buf[..].put_u4(0, 0x3);
    assert_eq!(buf, [0x3F]);
    buf[..].put_u4(4, 0x0);
    assert_eq!(buf, [0x30]);
}

#[test]
fn put_u4_masks_a_value_above_fifteen() {
    let mut buf = [0u8, 0u8];
    buf[..].put_u4(12, 0xF7);
    assert_eq!(buf, [0, 0x07]);
    buf[..].put_u4(9, 0x1F);
    assert_eq!(buf, [0, 0b0111_1111]);
}

#[test]
fn put_u16_writes_two_bytes() {
    let mut buf = [1u8, 2, 3, 4];
    buf[..].put_u16(8, 0xBEEF);
    assert_eq!(buf, [1, 0xBE, 0xEF, 4]);
    assert_eq!((&buf[..]).get_u16(8), 0xBEEF);
}
