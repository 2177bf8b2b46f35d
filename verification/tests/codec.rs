use libbcsv::codec::unpack_char;
use libbcsv::codec::unpack_long;
use libbcsv::codec::unpack_short;
use libbcsv::codec::Value;
use libbcsv::hash::calchash;
use libbcsv::types::DataType;
use libbcsv::types::Endian;
use libbcsv::types::Field;

#[test]
fn hash_of_empty_name_is_zero() {
    assert_eq!(calchash(""), 0);
}

#[test]
fn hash_of_short_names() {
    assert_eq!(calchash("a"), 97);
    assert_eq!(calchash("ab"), 97 * 31 + 98);
    assert_eq!(calchash("id"), 105 * 31 + 100);
}

#[test]
fn hash_wraps_at_32_bits() {
    let mut expected: u32 = 0;
    for b in "a_rather_long_field_name".bytes() {
        expected = (b as u32).wrapping_add(expected.wrapping_mul(31));
    }
    assert_eq!(calchash("a_rather_long_field_name"), expected);
    assert_eq!(calchash("a_rather_long_field_name"), 857_828_482);
    assert_eq!(calchash("zzzzzzzz"), 2_384_944_384);
}

#[test]
fn masked_long_decodes_to_low_half() {
    let field = Field { hash: 1, mask: 0x0000_FFFF, dataoff: 0, shift: 0, datatype: DataType::LONG };
    assert_eq!(unpack_long(&field, 0x0001_FFFF), 0xFFFF);
    assert_eq!(unpack_long(&field, 0x0001_FFFF), 65535);
}

#[test]
fn shifted_long_decodes_to_high_bits() {
    let field = Field { hash: 1, mask: 0x00FF_0000, dataoff: 0, shift: 16, datatype: DataType::LONG };
    assert_eq!(unpack_long(&field, 0x12AB_34CD), 0xAB);
    let wide = Field { hash: 1, mask: 0xFFFF_FFFF, dataoff: 0, shift: 40, datatype: DataType::LONG };
    assert_eq!(unpack_long(&wide, 0xFFFF_FFFF), 0);
}

#[test]
fn short_uses_low_half_of_mask() {
    let field = Field { hash: 1, mask: 0xFFFF_0FF0, dataoff: 0, shift: 4, datatype: DataType::SHORT };
    assert_eq!(unpack_short(&field, 0xABCD), 0xBC);
}

#[test]
fn char_ignores_mask() {
    let field = Field { hash: 1, mask: 0, dataoff: 0, shift: 4, datatype: DataType::CHAR };
    assert_eq!(unpack_char(&field, 0xA7), 0x0A);
}

#[test]
fn value_bytes_follow_byte_order() {
    assert_eq!(Value::LONG(0x0102_0304).write_value(Endian::Big), vec![1, 2, 3, 4]);
    assert_eq!(Value::LONG(0x0102_0304).write_value(Endian::Little), vec![4, 3, 2, 1]);
    assert_eq!(Value::SHORT(0x0102).write_value(Endian::Big), vec![1, 2]);
    assert_eq!(Value::SHORT(0x0102).write_value(Endian::Little), vec![2, 1]);
    assert_eq!(Value::CHAR(7).write_value(Endian::Big), vec![7]);
    assert_eq!(Value::FLOAT(0x3F80_0000).write_value(Endian::Big), vec![0x3F, 0x80, 0, 0]);
}
