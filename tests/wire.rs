use buffoon::output_stream::{head_len, head_value, write_head};
use buffoon::WireType;

#[test]
fn wire_type_from_code() {
    assert_eq!(WireType::from_u32(0), Some(WireType::Varint));
    assert_eq!(WireType::from_u32(1), Some(WireType::SixtyFourBit));
    assert_eq!(WireType::from_u32(2), Some(WireType::LengthDelimited));
    assert_eq!(WireType::from_u32(3), Some(WireType::StartGroup));
    assert_eq!(WireType::from_u32(4), Some(WireType::EndGroup));
    assert_eq!(WireType::from_u32(5), Some(WireType::ThirtyTwoBit));
    assert_eq!(WireType::from_u32(6), None);
    assert_eq!(WireType::from_u32(7), None);
    assert_eq!(WireType::LengthDelimited.code(), 2);
}

#[test]
fn header_packs_tag_and_wire_type() {
    assert_eq!(head_value(18, WireType::LengthDelimited), 146);
    let mut out = Vec::new();
    write_head(&mut out, 18, WireType::LengthDelimited);
    assert_eq!(out, vec![0x92, 0x01]);
    assert_eq!(head_len(18, WireType::LengthDelimited), 2);
    let mut out = Vec::new();
    write_head(&mut out, 1, WireType::Varint);
    assert_eq!(out, vec![0x08]);
}

#[test]
fn header_of_the_largest_tag() {
    let mut out = Vec::new();
    write_head(&mut out, u32::MAX, WireType::ThirtyTwoBit);
    assert_eq!(out, vec![0xFD, 0xFF, 0xFF, 0xFF, 0x7F]);
    assert_eq!(head_len(u32::MAX, WireType::ThirtyTwoBit), 5);
}
