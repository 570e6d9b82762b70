use arctic::len::Bit;
use arctic::len::Byte;
use arctic::len::Len;

#[test]
fn byte_lengths() {
    let a = Byte::<10>::new(3);
    let b = Byte::<10>::new(4);
    assert_eq!(a.add(b).bytes(), 7);
    assert_eq!(b.sub(a).bytes(), 1);
    assert_eq!(Byte::<10>::try_add(a, Byte::byte(), b).map(|l| l.bytes()), Some(8));
    assert!(Byte::<6>::try_add(Byte::new(3), Byte::byte(), Byte::new(4)).is_none());
    assert_eq!(Byte::<10>::from_bool(true).bytes(), 1);
    assert_eq!(Byte::<3>::clamp_from(Byte::<10>::new(9)).bytes(), 3);
    assert_eq!(Byte::<10>::new(2).range_to().len(), 3);
}

#[test]
fn bit_lengths() {
    assert_eq!(Bit::<56>::new_masked(0b0100_1111).into_u8(), 8);
    assert_eq!(Bit::<64>::new_masked(64).into_u8(), 0);
    assert_eq!(Bit::<56>::new_unchecked(13).align_down().into_u8(), 8);
    assert_eq!(Bit::<56>::min::<56, 64>(Bit::new_unchecked(16), Bit::new_unchecked(8)).into_u8(), 8);
    assert_eq!(Bit::<56>::try_add(Bit::new_unchecked(40), Bit::byte(), Bit::new_unchecked(8)).map(|l| l.into_u8()), Some(56));
    assert!(Bit::<56>::try_add(Bit::new_unchecked(48), Bit::byte(), Bit::new_unchecked(8)).is_none());
    assert_eq!(Bit::<56>::new_unchecked(24).bytes(), 3);
    assert_eq!(Bit::<56>::from_byte(Byte::<100>::new(9)).into_u8(), 56);
    assert_eq!(Bit::<56>::new_unchecked(16).range_to().len(), 3);
}

#[test]
fn len_trait() {
    assert_eq!(<Byte<8> as Len>::zero().bytes(), 0);
    assert_eq!(<Bit<56> as Len>::byte().into_u8(), 8);
    assert_eq!(Len::bytes(Bit::<56>::new_unchecked(40)), 5);
}
