use arctic::edge::Le;
use arctic::key::slow::Reader;
use arctic::key::slow::Writer;
use arctic::len::Bit;
use arctic::len::Byte;

fn le(bytes: &[u8]) -> Le {
    let mut value = 0u64;
    for (i, b) in bytes.iter().enumerate() {
        value |= (*b as u64) << (8 * i);
    }
    Le::new(value, Bit::new_unchecked((bytes.len() * 8) as u8))
}

#[test]
fn slow_reader_from_u64_is_big_endian() {
    let reader = Reader::from_u64(0x0102_0304_0506_0708);
    assert_eq!(reader.len().bytes(), 8);
    assert_eq!(reader.get_byte(Bit::new_unchecked(0)), Some(1));
    assert_eq!(reader.get_byte(Bit::new_unchecked(56)), Some(8));
    assert_eq!(reader.get_edge(Bit::new_unchecked(56)).into_iter(), vec![1, 2, 3, 4, 5, 6, 7]);
    assert_eq!(reader.get_edge(Bit::new_unchecked(16)).into_iter(), vec![1, 2]);
}

#[test]
fn slow_reader_from_slice_and_str() {
    let reader = Reader::from_slice(b"abc");
    assert_eq!(reader.len().bytes(), 3);
    assert_eq!(reader.get_edge(Bit::new_unchecked(56)).into_iter(), b"abc".to_vec());
    assert_eq!(reader.get_byte(Bit::new_unchecked(16)), Some(b'c'));
    assert_eq!(reader.get_byte(Bit::new_unchecked(24)), None);
    let long = Reader::from_str("abcdefghij");
    assert_eq!(long.len().bytes(), 8);
    assert_eq!(long.get_byte(Bit::new_unchecked(56)), Some(b'h'));
    let array = Reader::from_array(&[9u8, 8]);
    assert_eq!(array.len().bytes(), 2);
    assert_eq!(array.get_byte(Bit::new_unchecked(8)), Some(8));
}

#[test]
fn slow_reader_match_prefix() {
    let reader = Reader::from_slice(b"abcd");
    assert_eq!(reader.match_prefix(le(b"abx")).into_u8(), 16);
    assert_eq!(reader.match_prefix(le(b"xbc")).into_u8(), 0);
    // No difference where both have bytes: the key length is returned.
    assert_eq!(reader.match_prefix(le(b"ab")).into_u8(), 32);
    let full = Reader::from_u64(0x6162_6364_6566_6768);
    assert_eq!(full.match_prefix(le(b"abcdefg")).into_u8(), 56);
}

#[test]
fn slow_reader_prefix_suffix_common() {
    let reader = Reader::from_slice(b"abcd");
    let suffix = reader.suffix(Byte::new(1));
    assert_eq!(suffix.len().bytes(), 3);
    assert_eq!(suffix.get_edge(Bit::new_unchecked(56)).into_iter(), b"bcd".to_vec());
    let prefix = reader.prefix(Byte::new(2));
    assert_eq!(prefix.len().bytes(), 2);
    assert_eq!(prefix.get_edge(Bit::new_unchecked(56)).into_iter(), b"ab".to_vec());
    let other = Reader::from_slice(b"abxy");
    let common = reader.common_prefix(other);
    assert_eq!(common.len().bytes(), 2);
    assert_eq!(common.get_edge(Bit::new_unchecked(56)).into_iter(), b"ab".to_vec());
    let same = reader.common_prefix(Reader::from_slice(b"abcdef"));
    assert_eq!(same.len().bytes(), 4);
}

#[test]
fn slow_writer_new_and_replace() {
    let prefix = Reader::from_slice(b"ab");
    let (mut writer, len) = Writer::new(prefix, le(b"cd"));
    assert_eq!(len.bytes(), 4);
    assert_eq!(writer.as_slice(), b"abcd\0\0\0\0");
    let end = writer.replace(Byte::new(1), b'x', le(b"yz"));
    assert_eq!(end.bytes(), 4);
    assert_eq!(writer.as_slice(), b"axyz\0\0\0\0");
}
