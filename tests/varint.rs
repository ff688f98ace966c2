use buffoon::take::Take;
use buffoon::varint::{read_varint, wire_len, write_varint};
use buffoon::Error;

fn encode(v: u64) -> Vec<u8> {
    let mut out = Vec::new();
    write_varint(v, &mut out);
    out
}

fn decode(bytes: &[u8]) -> Result<Option<u64>, Error> {
    let mut src = Take::new(bytes.to_vec(), u64::MAX);
    read_varint(&mut src)
}

#[test]
fn varint_boundary_table() {
    let table: Vec<(u64, Vec<u8>)> = vec![
        (0, vec![0x00]),
        (1, vec![0x01]),
        (127, vec![0x7F]),
        (128, vec![0x80, 0x01]),
        (16383, vec![0xFF, 0x7F]),
        (16384, vec![0x80, 0x80, 0x01]),
        (2097151, vec![0xFF, 0xFF, 0x7F]),
        ((1u64 << 35) - 1, vec![0xFF, 0xFF, 0xFF, 0xFF, 0x7F]),
        (u64::MAX, vec![0xFF, 0xFF, 0xFF, 0xFF, 0xFF, 0xFF, 0xFF, 0xFF, 0xFF, 0x01]),
        (270, vec![0x8E, 0x02]),
        (86942, vec![0x9E, 0xA7, 0x05]),
    ];
    for (v, bytes) in table {
        assert_eq!(encode(v), bytes, "encoding {}", v);
        assert_eq!(wire_len(v), bytes.len(), "length of {}", v);
        assert_eq!(decode(&bytes), Ok(Some(v)), "decoding {}", v);
    }
}

#[test]
fn varint_read_stops_after_its_bytes() {
    let mut src = Take::new(vec![0x8E, 0x02, 0x07], u64::MAX);
    assert_eq!(read_varint(&mut src), Ok(Some(270)));
    assert_eq!(src.limit(), u64::MAX - 2);
    assert_eq!(read_varint(&mut src), Ok(Some(7)));
    assert_eq!(read_varint(&mut src), Ok(None));
}

#[test]
fn varint_empty_input_is_a_clean_end() {
    assert_eq!(decode(&[]), Ok(None));
}

#[test]
fn varint_truncated_is_unexpected_eof() {
    assert_eq!(decode(&[0x80]), Err(Error::UnexpectedEof));
    assert_eq!(decode(&[0xFF, 0xFF, 0xFF]), Err(Error::UnexpectedEof));
}

#[test]
fn varint_too_long_overflows() {
    assert_eq!(decode(&[0x80; 11]), Err(Error::VarintOverflow));
    assert_eq!(decode(&[0x80; 10]), Err(Error::VarintOverflow));
}

#[test]
fn varint_too_large_overflows() {
    let bytes = [0xFF, 0xFF, 0xFF, 0xFF, 0xFF, 0xFF, 0xFF, 0xFF, 0xFF, 0x02];
    assert_eq!(decode(&bytes), Err(Error::VarintOverflow));
}

#[test]
fn varint_read_respects_the_budget() {
    let mut src = Take::new(vec![0x80, 0x01], 1);
    assert_eq!(read_varint(&mut src), Err(Error::UnexpectedEof));
    let mut src = Take::new(vec![0x05], 0);
    assert_eq!(read_varint(&mut src), Ok(None));
}
