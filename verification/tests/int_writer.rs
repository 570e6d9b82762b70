use arctic::edge::Be;
use arctic::key::unsigned::Reader;
use arctic::key::unsigned::Writer;
use arctic::len::Bit;

fn be(bytes: &[u8]) -> Be {
    let mut value = 0u64;
    for (i, b) in bytes.iter().enumerate() {
        value |= (*b as u64) << (56 - 8 * i);
    }
    Be::new(value, Bit::new_unchecked((bytes.len() * 8) as u8))
}

#[test]
fn int_writer_joins_prefix_and_edge() {
    let prefix = Reader::from_prefix(b"ab");
    let (writer, len) = Writer::new(prefix, be(b"cd"));
    assert_eq!(len.into_u8(), 32);
    assert_eq!(writer.into_u64() >> 32, 0x6162_6364);
}

#[test]
fn int_writer_replaces_from_a_byte() {
    let prefix = Reader::from_prefix(b"abcd");
    let (mut writer, _) = Writer::new(prefix, be(b""));
    let end = writer.replace(Bit::new_unchecked(8), b'x', be(b"yz"));
    assert_eq!(end.into_u8(), 32);
    assert_eq!(writer.into_u64() >> 32, 0x6178_797a);
}

#[test]
fn int_writer_full_key() {
    let prefix = Reader::from_u64(0x0102_0304_0506_0708);
    let (writer, len) = Writer::new(prefix, be(b""));
    assert_eq!(len.into_u8(), 64);
    assert_eq!(writer.into_u64(), 0x0102_0304_0506_0708);
}

#[test]
fn narrow_integer_keys_round_trip() {
    let r16 = Reader::from_u16(0xBEEF);
    assert_eq!(r16.len().into_u8(), 16);
    assert_eq!(r16.get_byte(Bit::new_unchecked(0)), Some(0xBE));
    assert_eq!(r16.get_byte(Bit::new_unchecked(8)), Some(0xEF));
    assert_eq!(r16.get_byte(Bit::new_unchecked(16)), None);
    let (writer, len) = Writer::new(r16, be(b""));
    assert_eq!(len.into_u8(), 16);
    assert_eq!(writer.into_u16(), 0xBEEF);

    let r32 = Reader::from_u32(0x1234_5678);
    assert_eq!(r32.len().into_u8(), 32);
    assert_eq!(r32.get_byte(Bit::new_unchecked(24)), Some(0x78));
    let (writer, _) = Writer::new(r32.prefix(Bit::new_unchecked(16)), be(&[0x56, 0x78]));
    assert_eq!(writer.into_u32(), 0x1234_5678);
}
