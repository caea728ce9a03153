use orion_utils::codec::{
    base128_decode, base128_encode, decode_len, encode_len, Base128Bytes, BoundedBuffer, Buffer, Codec,
    Ignored, Reminder, Unbound, WritableBuffer,
};

fn roundtrip<'a, T: Codec<'a>>(value: &T, bytes: &'a mut Vec<u8>) -> Option<T> {
    bytes.clear();
    value.encode(bytes)?;
    let mut slice: &'a [u8] = bytes.as_slice();
    let decoded = T::decode(&mut slice)?;
    assert!(slice.is_empty());
    Some(decoded)
}

#[test]
fn integers_are_base128() {
    assert_eq!(300u64.to_bytes(), vec![0xac, 0x02]);
    assert_eq!(0u64.to_bytes(), vec![0]);
    assert_eq!(127u16.to_bytes(), vec![0x7f]);
    assert_eq!(128u32.to_bytes(), vec![0x80, 0x01]);
    assert_eq!(u64::MAX.to_bytes().len(), 10);
    assert_eq!(5u8.to_bytes(), vec![5]);
    assert_eq!(true.to_bytes(), vec![1]);
    assert_eq!(false.to_bytes(), vec![0]);
}

#[test]
fn integers_read_back() {
    let mut buf = Vec::new();
    for v in [0u64, 1, 127, 128, 300, 1 << 40, u64::MAX] {
        assert_eq!(roundtrip(&v, &mut buf), Some(v));
    }
    assert_eq!(roundtrip(&65535u16, &mut buf), Some(65535u16));
    assert_eq!(roundtrip(&123456usize, &mut buf), Some(123456usize));
    assert_eq!(roundtrip(&(u64::MAX as u128), &mut buf), Some(u64::MAX as u128));
}

#[test]
fn base128_functions() {
    let mut buf = Vec::new();
    base128_encode(300, &mut buf).unwrap();
    assert_eq!(buf, vec![0xac, 0x02]);
    let mut slice: &[u8] = &[0xac, 0x02, 9];
    assert_eq!(base128_decode(&mut slice), Some(300));
    assert_eq!(slice, &[9]);
    let mut cut: &[u8] = &[0x80];
    assert_eq!(base128_decode(&mut cut), None);
    assert_eq!(cut, &[0x80]);
}

#[test]
fn sequences_carry_their_length() {
    assert_eq!(vec![1u8, 2, 3].to_bytes(), vec![3, 1, 2, 3]);
    assert_eq!((&[7u8, 8][..]).to_bytes(), vec![2, 7, 8]);
    assert_eq!(String::from("hi").to_bytes(), vec![2, b'h', b'i']);
    assert_eq!("hi".to_bytes(), vec![2, b'h', b'i']);
    let mut buf = Vec::new();
    assert_eq!(roundtrip(&vec![10u64, 300], &mut buf), Some(vec![10u64, 300]));
    assert_eq!(roundtrip(&String::from("héllo"), &mut buf), Some(String::from("héllo")));
}

#[test]
fn invalid_utf8_does_not_decode() {
    let mut slice: &[u8] = &[1, 0xff];
    assert!(String::decode(&mut slice).is_none());
}

#[test]
fn options_results_and_tuples() {
    assert_eq!(Some(5u8).to_bytes(), vec![1, 5]);
    assert_eq!(None::<u8>.to_bytes(), vec![0]);
    assert_eq!(Ok::<u8, u8>(4).to_bytes(), vec![1, 4]);
    assert_eq!(Err::<u8, u8>(4).to_bytes(), vec![0, 4]);
    assert_eq!((1u8, 300u64).to_bytes(), vec![1, 0xac, 0x02]);
    let mut buf = Vec::new();
    assert_eq!(roundtrip(&(1u8, 2u16, 3u32), &mut buf), Some((1u8, 2u16, 3u32)));
    assert_eq!(roundtrip(&(1u8, 2u8, 3u8, 4u8), &mut buf), Some((1u8, 2u8, 3u8, 4u8)));
    assert_eq!(roundtrip(&(1u8, 2u8, 3u8, 4u8, 5u8), &mut buf), Some((1u8, 2u8, 3u8, 4u8, 5u8)));
    assert_eq!(
        roundtrip(&(1u8, 2u8, 3u8, 4u8, 5u8, 6u8), &mut buf),
        Some((1u8, 2u8, 3u8, 4u8, 5u8, 6u8))
    );
    assert_eq!(roundtrip(&Some(9u64), &mut buf), Some(Some(9u64)));
    assert_eq!(roundtrip(&Err::<u8, u64>(9), &mut buf), Some(Err(9)));
    assert_eq!(roundtrip(&[1u8, 2, 3], &mut buf), Some([1u8, 2, 3]));
    assert_eq!(roundtrip(&(), &mut buf), Some(()));
}

#[test]
fn reminders_take_the_rest() {
    let bytes = [1u8, 2, 3];
    assert_eq!(Reminder(&bytes).to_bytes(), vec![1, 2, 3]);
    let mut slice: &[u8] = &bytes;
    let r = Reminder::decode(&mut slice).unwrap();
    assert_eq!(r.0, &[1, 2, 3]);
    assert!(slice.is_empty());
    let mut slice: &[u8] = &bytes;
    let u = Unbound::<Vec<u8>>::decode(&mut slice).unwrap();
    assert_eq!(u.0, vec![1, 2, 3]);
    assert!(Ignored(5u8).to_bytes().is_empty());
    let mut slice: &[u8] = &bytes;
    assert_eq!(Ignored::<u8>::decode(&mut slice).unwrap().0, 0);
    assert_eq!(slice.len(), 3);
}

#[test]
fn packets_carry_a_big_endian_length() {
    assert_eq!(vec![7u8].to_packet(), vec![0, 2, 1, 7]);
    assert_eq!(encode_len(0x1234), [0x12, 0x34]);
    assert_eq!(decode_len([0x12, 0x34]), 0x1234);
    assert_eq!(decode_len(encode_len(70000)), 70000 % 65536);
}

#[test]
fn bounded_buffer_refuses_what_does_not_fit() {
    let mut buf = BoundedBuffer::new(3);
    assert!(buf.push(1).is_some());
    assert!(buf.extend_from_slice(&[2, 3]).is_some());
    assert!(buf.push(4).is_none());
    assert_eq!(buf.as_slice(), &[1, 2, 3]);
    let mut small = BoundedBuffer::new(2);
    assert!(300u64.encode(&mut small).is_some());
    assert!(1u8.encode(&mut small).is_none());
    assert_eq!(small.into_vec(), vec![0xac, 0x02]);
}

#[test]
fn writable_buffer_appends() {
    let mut w = WritableBuffer { buffer: Vec::new() };
    assert_eq!(w.write(&[1, 2]), Some(2));
    assert_eq!(w.flush(), Some(()));
    assert_eq!(w.buffer, vec![1, 2]);
    let mut b = WritableBuffer { buffer: BoundedBuffer::new(1) };
    assert_eq!(b.write(&[1, 2]), None);
}

#[test]
fn base128_bytes_gives_low_bits_first() {
    let mut it = Base128Bytes::new(5);
    assert_eq!(it.next(), Some(5));
    assert_eq!(it.next(), None);
    let mut zero = Base128Bytes::new(0);
    assert_eq!(zero.next(), Some(0));
    assert_eq!(zero.next(), None);
    let mut big = Base128Bytes::new(300);
    assert_eq!(big.next(), Some(0x2c));
    assert_eq!(big.next(), Some(0x02));
}
