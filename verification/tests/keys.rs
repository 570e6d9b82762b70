use arctic::edge::Le;
use arctic::edge::Slice;
use arctic::key::array;
use arctic::key::bytes::Reader;
use arctic::key::bytes::Writer;
use arctic::key::common_prefix;
use arctic::key::dynamic::BoxedSlice;
use arctic::key::non_null::NonNullSlice;
use arctic::key::non_null::NonNullVec;
use arctic::key::non_prefix::NonPrefixVec;
use arctic::key::null_terminated::NullTerminatedSlice;
use arctic::key::null_terminated::NullTerminatedVec;
use arctic::key::read_u64;
use arctic::key::slice;
use arctic::key::string::NonNullStr;
use arctic::key::string::NonNullString;
use arctic::key::unsigned;
use arctic::key::Invariant;
use arctic::key::NonNull;
use arctic::key::NonNullError;
use arctic::key::Terminated;
use arctic::key::TerminatedError;
use arctic::len::Bit;
use arctic::len::Byte;

#[test]
fn common_prefix_lengths() {
    assert_eq!(common_prefix(b"abcde", b"abxde"), 2);
    assert_eq!(common_prefix(b"abc", b"abcdef"), 3);
    assert_eq!(common_prefix(b"", b"abc"), 0);
    assert_eq!(common_prefix(b"same", b"same"), 4);
}

#[test]
fn read_u64_pads_with_zeros() {
    assert_eq!(read_u64(&[1, 2, 3]), 0x0003_0201);
    assert_eq!(read_u64(&[1, 2, 3, 4, 5, 6, 7, 8, 9]), 0x0807_0605_0403_0201);
    assert_eq!(read_u64(&[]), 0);
}

#[test]
fn non_null_validate() {
    assert_eq!(NonNull::validate(b"abc"), Ok(()));
    assert_eq!(NonNull::validate(b""), Ok(()));
    assert_eq!(NonNull::validate(b"ab\0c\0"), Err(NonNullError { index: 2 }));
}

#[test]
fn terminated_validate() {
    assert_eq!(Terminated::<0>::validate(b"abc\0"), Ok(()));
    assert_eq!(Terminated::<0>::validate(b"abc"), Err(TerminatedError::Missing));
    assert_eq!(Terminated::<0>::validate(b""), Err(TerminatedError::Missing));
    assert_eq!(Terminated::<0>::validate(b"a\0c\0"), Err(TerminatedError::Internal(1)));
    assert_eq!(Terminated::<b'$'>::validate(b"ab$"), Ok(()));
}

#[test]
fn reader_terminated_bytes() {
    let reader = Reader::<bool>::new(b"ab", true);
    assert_eq!(reader.len().bytes(), 3);
    assert_eq!(reader.get_byte(1), Some(b'b'));
    assert_eq!(reader.get_byte(2), Some(0));
    assert_eq!(reader.get_byte(3), None);
    let plain = Reader::<()>::new(b"ab", true);
    assert_eq!(plain.len().bytes(), 2);
    assert_eq!(plain.get_byte(2), None);
}

#[test]
fn reader_prefix_suffix() {
    let reader = Reader::<bool>::new(b"abc", true);
    let p = reader.copied().prefix(Byte::new(2));
    assert_eq!(p.as_slice(), b"ab");
    assert!(!p.is_terminated());
    let p = reader.copied().prefix(Byte::new(4));
    assert_eq!(p.as_slice(), b"abc");
    assert!(p.is_terminated());
    let s = reader.copied().suffix(Byte::new(1));
    assert_eq!(s.as_slice(), b"bc");
    assert!(s.is_terminated());
    let s = reader.copied().suffix(Byte::new(4));
    assert_eq!(s.as_slice(), b"");
    assert!(!s.is_terminated());
    assert_eq!(s.len().bytes(), 0);
}

#[test]
fn reader_common_prefix() {
    let a = Reader::<bool>::new(b"abcd", true);
    let b = Reader::<bool>::new(b"abxy", true);
    let c = a.copied().common_prefix(b);
    assert_eq!(c.as_slice(), b"ab");
    assert!(!c.is_terminated());
    let d = Reader::<bool>::new(b"abcd", true);
    let e = a.common_prefix(d);
    assert_eq!(e.as_slice(), b"abcd");
    assert!(e.is_terminated());
}

#[test]
fn reader_split() {
    let reader = Reader::<bool>::new(b"xyz", true);
    let (rest, last) = reader.split_last().unwrap();
    assert_eq!(rest.as_slice(), b"xy");
    assert_eq!(last, b'z');
    assert!(rest.is_terminated());
    assert!(Reader::<bool>::new_prefix(b"").split_last().is_none());
    let key = Reader::<()>::new(b"ab\0", false);
    let (rest, byte) = key.split_second_last().unwrap();
    assert_eq!(rest.as_slice(), b"a");
    assert!(rest.is_terminated());
    assert_eq!(byte, b'b');
}

#[test]
fn reader_edges() {
    let reader = Reader::<bool>::new(b"ab", true);
    let edge = reader.get_edge(Bit::new_unchecked(56));
    assert_eq!(edge.into_iter(), vec![b'a', b'b', 0]);
    let edge = reader.get_edge(Bit::new_unchecked(8));
    assert_eq!(edge.into_iter(), vec![b'a']);
    assert_eq!(reader.match_exact(edge).map(|len| len.into_u8()), Some(8));
    let other = Le::new(0x7a61, Bit::new_unchecked(16));
    assert!(reader.match_exact(other).is_none());
    assert_eq!(reader.match_prefix(other).bytes(), 1);
}

#[test]
fn writer_builds_keys() {
    let prefix = Reader::<bool>::new(b"ab", false);
    let edge = Le::new(0x6463, Bit::new_unchecked(16));
    let (mut writer, len) = Writer::new(prefix, edge);
    assert_eq!(writer.as_slice(), b"abcd");
    assert_eq!(len.bytes(), 4);
    let tail = Le::new(0x7a, Bit::new_unchecked(8));
    let len = writer.replace(Byte::new(3), b'q', tail);
    assert_eq!(writer.as_slice(), b"abcqz");
    assert_eq!(len.bytes(), 5);
    let done = Reader::<bool>::new(b"ab", true);
    let (writer, len) = Writer::new(done, Le::null());
    assert_eq!(writer.as_slice(), b"ab\0");
    assert_eq!(len.bytes(), 3);
}

#[test]
fn array_reader() {
    let key = [1u8, 2, 3, 4];
    let reader = array::Reader::<4>::from_array(&key);
    assert_eq!(reader.len().bytes(), 4);
    assert_eq!(reader.get_byte(3), Some(4));
    let p = array::Reader::<4>::new_prefix(&key[..2]);
    let c = reader.common_prefix(p);
    assert_eq!(c.len().bytes(), 2);
}

#[test]
fn slice_reader_edges() {
    let key = b"hello";
    let reader = slice::Reader::<true>::from_key(key);
    assert_eq!(reader.len().bytes(), 6);
    let edge = reader.get_edge(Byte::new(6));
    assert_eq!(edge.into_iter(), b"hello\0".to_vec());
    let edge = reader.get_edge(Byte::new(3));
    assert_eq!(edge.as_slice(), b"hel");
    let stored = Slice::<true>::new(b"help", 0, Byte::new(4));
    assert_eq!(reader.match_prefix(stored).bytes(), 3);
    let same = Slice::<true>::new(key, 0, Byte::new(5)).with_terminate(true);
    assert_eq!(reader.match_prefix(same).bytes(), 6);
}

#[test]
fn integer_reader() {
    let reader = unsigned::Reader::from_u64(0x0102_0304_0506_0708);
    assert_eq!(reader.len().into_u8(), 64);
    assert_eq!(reader.get_byte(Bit::new_unchecked(8)), Some(2));
    let edge = reader.get_edge(Bit::new_unchecked(24));
    assert_eq!(edge.into_iter(), vec![1, 2, 3]);
    assert!(reader.match_exact(edge).is_some());
    let rest = reader.suffix(Bit::new_unchecked(16));
    assert_eq!(rest.get_byte(Bit::new_unchecked(0)), Some(3));
    assert_eq!(rest.len().into_u8(), 48);
    let (shorter, low) = reader.split_last().unwrap();
    assert_eq!(low, 8);
    assert_eq!(shorter.len().into_u8(), 56);
    let other = unsigned::Reader::from_u64(0x0102_0399_0000_0000);
    assert_eq!(reader.common_prefix(other).len().into_u8(), 24);
    let prefix = unsigned::Reader::from_prefix(&[1, 2]);
    assert_eq!(prefix.len().into_u8(), 16);
    assert_eq!(prefix.get_byte(Bit::new_unchecked(8)), Some(2));
}

#[test]
fn integer_common_prefix_of_equal_keys_wraps() {
    let a = unsigned::Reader::from_u64(7);
    let b = unsigned::Reader::from_u64(7);
    assert_eq!(a.common_prefix(b).len().into_u8(), 0);
}

#[test]
fn non_null_keys() {
    assert!(NonNullSlice::new(b"").is_none());
    assert!(NonNullSlice::new(b"a\0").is_none());
    let key = NonNullSlice::new(b"abc").unwrap();
    assert_eq!(key.len(), 3);
    assert_eq!(key.reader().len().bytes(), 4);
    let owned = key.to_non_null_vec();
    assert_eq!(owned.as_non_null_slice().as_slice(), b"abc");
    assert_eq!(NonNullVec::new(vec![0]).unwrap_err(), vec![0]);
    assert_eq!(NonNullVec::new(vec![9]).unwrap().into_vec(), vec![9]);
}

#[test]
fn null_terminated_keys() {
    assert!(NullTerminatedSlice::new(b"\0").is_none());
    assert!(NullTerminatedSlice::new(b"ab").is_none());
    assert!(NullTerminatedSlice::new(b"a\0b\0").is_none());
    let key = NullTerminatedSlice::new(b"ab\0").unwrap();
    assert_eq!(key.len(), 3);
    assert_eq!(key.reader().len().bytes(), 3);
    assert!(NullTerminatedVec::new(vec![1, 0]).is_ok());
    assert!(NullTerminatedVec::new(vec![0, 0]).is_err());
    let owned = key.to_null_terminated_vec();
    assert_eq!(owned.as_null_terminated_slice().as_slice(), b"ab\0");
    assert_eq!(owned.into_vec(), b"ab\0".to_vec());
}

#[test]
fn non_prefix_keys() {
    let key = NonPrefixVec::new_unchecked(vec![5, 6]);
    assert_eq!(key.as_non_prefix_slice().len(), 2);
    assert_eq!(key.clone().into_vec(), vec![5, 6]);
    let copy = key.as_non_prefix_slice().to_non_prefix_vec();
    assert_eq!(copy.into_vec(), vec![5, 6]);
}

#[test]
fn string_keys() {
    assert!(NonNullStr::new("").is_none());
    assert!(NonNullStr::new("a\0b").is_none());
    let key = NonNullStr::new("héllo").unwrap();
    assert_eq!(key.len(), 6);
    assert_eq!(key.to_non_null_string().into_string(), "héllo");
    assert!(NonNullString::new(String::from("x\0")).is_err());
    let owned = NonNullString::new(String::from("key")).unwrap();
    assert_eq!(owned.as_non_null_str().as_str(), "key");
    assert_eq!(owned.as_non_null_str().reader().len().bytes(), 4);
}

#[test]
fn boxed_slice_keys() {
    let key = BoxedSlice::<Terminated<0>>::new(vec![1, 2, 0]).unwrap();
    assert_eq!(key.as_slice().as_raw(), &[1, 2, 0]);
    let (back, error) = BoxedSlice::<NonNull>::new(vec![1, 0]).err().unwrap();
    assert_eq!(back, vec![1, 0]);
    assert_eq!(error.index, 1);
    let key = BoxedSlice::<NonNull>::new(vec![4, 5]).unwrap();
    let reader = key.as_slice().reader();
    assert_eq!(reader.len().bytes(), 3);
}

#[test]
fn default_reader_is_the_empty_prefix() {
    let reader = Reader::<bool>::default();
    assert_eq!(reader.len().bytes(), 0);
    assert!(!reader.is_terminated());
    assert_eq!(reader.as_slice(), Reader::<bool>::new_prefix(&[]).as_slice());
}
