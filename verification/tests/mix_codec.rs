use eyros::mix::{Mix, Mix2};
use eyros::scalar::{Codec, CodecError, Scalar};

fn point(v0: Mix<u32>, v1: Mix<u64>) -> Mix2<u32, u64> {
    Mix2::new(v0, v1)
}

#[test]
fn new_keeps_both_coordinates() {
    let p = Mix2::new(Mix::Scalar(7u32), Mix::Interval(1u64, 9u64));
    assert_eq!(p.v0, Mix::Scalar(7u32));
    assert_eq!(p.v1, Mix::Interval(1u64, 9u64));
}

#[test]
fn scalar_point_bytes() {
    let p = point(Mix::Scalar(0x01020304), Mix::Scalar(0x1112131415161718));
    assert_eq!(
        p.to_bytes(),
        vec![0, 1, 2, 3, 4, 0x11, 0x12, 0x13, 0x14, 0x15, 0x16, 0x17, 0x18]
    );
    assert_eq!(p.count_bytes(), 13);
}

#[test]
fn interval_point_bytes() {
    let p = point(Mix::Interval(1, 2), Mix::Interval(3, 4));
    assert_eq!(
        p.to_bytes(),
        vec![3, 0, 0, 0, 1, 0, 0, 0, 2, 0, 0, 0, 0, 0, 0, 0, 3, 0, 0, 0, 0, 0, 0, 0, 4]
    );
    assert_eq!(p.count_bytes(), 25);
}

#[test]
fn header_marks_each_interval() {
    assert_eq!(point(Mix::Interval(1, 2), Mix::Scalar(3)).to_bytes()[0], 1);
    assert_eq!(point(Mix::Scalar(1), Mix::Interval(2, 3)).to_bytes()[0], 2);
    assert_eq!(point(Mix::Interval(1, 2), Mix::Scalar(3)).count_bytes(), 17);
    assert_eq!(point(Mix::Scalar(1), Mix::Interval(2, 3)).count_bytes(), 21);
}

#[test]
fn round_trip_of_every_shape() {
    let points = vec![
        point(Mix::Scalar(5), Mix::Scalar(6)),
        point(Mix::Interval(5, 50), Mix::Scalar(6)),
        point(Mix::Scalar(5), Mix::Interval(6, 60)),
        point(Mix::Interval(0, u32::MAX), Mix::Interval(0, u64::MAX)),
    ];
    for p in points {
        let mut bytes = p.to_bytes();
        let size = bytes.len();
        assert_eq!(size, p.count_bytes());
        bytes.push(0xaa);
        bytes.push(0xbb);
        assert_eq!(<Mix2<u32, u64> as Codec>::from_bytes(&bytes), Ok((size, p)));
        assert_eq!(Mix2::<u32, u64>::count_from_bytes(&bytes), Ok(size));
    }
}

#[test]
fn record_round_trip_with_value() {
    let record = (point(Mix::Interval(3, 4), Mix::Scalar(9)), 77u32);
    let bytes = record.to_bytes();
    assert_eq!(bytes.len(), 17 + 4);
    assert_eq!(
        <(Mix2<u32, u64>, u32) as Codec>::from_bytes(&bytes),
        Ok((21, record))
    );
}

#[test]
fn write_bytes_into_larger_buffer() {
    let p = point(Mix::Scalar(258), Mix::Scalar(1));
    let mut dst = vec![0xffu8; 15];
    assert_eq!(p.write_bytes(&mut dst), Ok(13));
    assert_eq!(
        dst,
        vec![0, 0, 0, 1, 2, 0, 0, 0, 0, 0, 0, 0, 1, 0xff, 0xff]
    );
}

#[test]
fn write_bytes_into_small_buffer_fails() {
    let p = point(Mix::Scalar(258), Mix::Scalar(1));
    let mut empty: Vec<u8> = vec![];
    assert_eq!(p.write_bytes(&mut empty), Err(CodecError::DestinationTooSmall));
    let mut short = vec![0u8; 12];
    assert_eq!(p.write_bytes(&mut short), Err(CodecError::DestinationTooSmall));
    assert_eq!(short.len(), 12);
}

#[test]
fn from_bytes_of_short_buffer_fails() {
    let p = point(Mix::Interval(1, 2), Mix::Scalar(3));
    let bytes = p.to_bytes();
    let empty: Vec<u8> = vec![];
    assert_eq!(
        <Mix2<u32, u64> as Codec>::from_bytes(&empty),
        Err(CodecError::SourceTooShort)
    );
    assert_eq!(
        <Mix2<u32, u64> as Codec>::from_bytes(&bytes[..16]),
        Err(CodecError::SourceTooShort)
    );
    assert_eq!(
        <Mix2<u32, u64> as Codec>::from_bytes(&bytes[..5]),
        Err(CodecError::SourceTooShort)
    );
}

#[test]
fn count_from_bytes_reads_the_header_only() {
    assert_eq!(Mix2::<u32, u64>::count_from_bytes(&[0]), Ok(13));
    assert_eq!(Mix2::<u32, u64>::count_from_bytes(&[1]), Ok(17));
    assert_eq!(Mix2::<u32, u64>::count_from_bytes(&[2]), Ok(21));
    assert_eq!(Mix2::<u32, u64>::count_from_bytes(&[3, 9, 9]), Ok(25));
    assert_eq!(
        Mix2::<u32, u64>::count_from_bytes(&[]),
        Err(CodecError::SourceTooShort)
    );
}

#[test]
fn header_bits_above_the_second_are_ignored() {
    let mut bytes = point(Mix::Scalar(5), Mix::Scalar(6)).to_bytes();
    bytes[0] = 0xfc;
    assert_eq!(
        <Mix2<u32, u64> as Codec>::from_bytes(&bytes),
        Ok((13, point(Mix::Scalar(5), Mix::Scalar(6))))
    );
}

#[test]
fn scalar_u32_bytes() {
    let mut dst = vec![9u8; 6];
    assert_eq!(Scalar::write_at(&0xa1b2c3d4u32, &mut dst, 1), Ok(4));
    assert_eq!(dst, vec![9, 0xa1, 0xb2, 0xc3, 0xd4, 9]);
    assert_eq!(
        Scalar::write_at(&1u32, &mut dst, 3),
        Err(CodecError::DestinationTooSmall)
    );
    assert_eq!(dst, vec![9, 0xa1, 0xb2, 0xc3, 0xd4, 9]);
    assert_eq!(<u32 as Scalar>::from_bytes(&dst[1..]), Ok((4, 0xa1b2c3d4u32)));
    assert_eq!(
        <u32 as Scalar>::from_bytes(&dst[3..]),
        Err(CodecError::SourceTooShort)
    );
    assert_eq!(Scalar::count_bytes(&7u32), 4);
    assert_eq!(<u32 as Scalar>::count_from_bytes(&[]), Ok(4));
}

#[test]
fn scalar_u64_bytes() {
    let mut dst = vec![0u8; 8];
    assert_eq!(Scalar::write_at(&0x0102030405060708u64, &mut dst, 0), Ok(8));
    assert_eq!(dst, vec![1, 2, 3, 4, 5, 6, 7, 8]);
    assert_eq!(
        <u64 as Scalar>::from_bytes(&dst),
        Ok((8, 0x0102030405060708u64))
    );
    assert_eq!(
        <u64 as Scalar>::from_bytes(&dst[1..]),
        Err(CodecError::SourceTooShort)
    );
    assert_eq!(Scalar::count_bytes(&7u64), 8);
    assert_eq!(<u64 as Scalar>::count_from_bytes(&[1, 2]), Ok(8));
}

#[test]
fn value_codec_of_integers() {
    assert_eq!(Codec::to_bytes(&0x01020304u32), vec![1, 2, 3, 4]);
    assert_eq!(Codec::to_bytes(&5u64), vec![0, 0, 0, 0, 0, 0, 0, 5]);
    assert_eq!(<u32 as Codec>::from_bytes(&[0, 0, 1, 0, 7]), Ok((4, 256u32)));
    assert_eq!(
        <u64 as Codec>::from_bytes(&[0, 0, 1, 0, 7]),
        Err(CodecError::SourceTooShort)
    );
    assert_eq!(Codec::duplicate(&9u32), 9u32);
}

#[test]
fn location_bytes_are_tree_then_offset() {
    let loc: (u32, u64) = (2, 0x0a0b);
    assert_eq!(
        loc.to_bytes(),
        vec![0, 0, 0, 2, 0, 0, 0, 0, 0, 0, 0x0a, 0x0b]
    );
    assert_eq!(
        <(u32, u64) as Codec>::from_bytes(&loc.to_bytes()),
        Ok((12, loc))
    );
}

#[test]
fn mean_rounds_down_and_does_not_overflow() {
    assert_eq!(Scalar::mean(&3u32, &4u32), 3);
    assert_eq!(Scalar::mean(&u32::MAX, &u32::MAX), u32::MAX);
    assert_eq!(Scalar::mean(&u64::MAX, &(u64::MAX - 2)), u64::MAX - 1);
    assert!(Scalar::le(&3u32, &3u32));
    assert!(!Scalar::le(&4u64, &3u64));
}

#[test]
fn scalar_i32_bytes() {
    let mut dst = vec![9u8; 6];
    assert_eq!(Scalar::write_at(&-2i32, &mut dst, 1), Ok(4));
    assert_eq!(dst, vec![9, 0xff, 0xff, 0xff, 0xfe, 9]);
    assert_eq!(<i32 as Scalar>::from_bytes(&dst[1..]), Ok((4, -2i32)));
    assert_eq!(
        <i32 as Scalar>::from_bytes(&[0x80, 0, 0, 0]),
        Ok((4, i32::MIN))
    );
    assert_eq!(
        <i32 as Scalar>::from_bytes(&dst[3..]),
        Err(CodecError::SourceTooShort)
    );
    assert_eq!(
        Scalar::write_at(&1i32, &mut dst, 3),
        Err(CodecError::DestinationTooSmall)
    );
    assert_eq!(Scalar::count_bytes(&-7i32), 4);
    assert_eq!(<i32 as Scalar>::count_from_bytes(&[]), Ok(4));
    assert_eq!(Codec::to_bytes(&258i32), vec![0, 0, 1, 2]);
    assert_eq!(<i32 as Codec>::from_bytes(&[0xff, 0xff, 0xff, 0xff, 1]), Ok((4, -1i32)));
}

#[test]
fn scalar_i64_bytes() {
    let mut dst = vec![0u8; 8];
    assert_eq!(Scalar::write_at(&-257i64, &mut dst, 0), Ok(8));
    assert_eq!(dst, vec![0xff, 0xff, 0xff, 0xff, 0xff, 0xff, 0xfe, 0xff]);
    assert_eq!(<i64 as Scalar>::from_bytes(&dst), Ok((8, -257i64)));
    assert_eq!(
        <i64 as Scalar>::from_bytes(&dst[1..]),
        Err(CodecError::SourceTooShort)
    );
    assert_eq!(Scalar::count_bytes(&7i64), 8);
    assert_eq!(<i64 as Scalar>::count_from_bytes(&[1, 2]), Ok(8));
    assert_eq!(Codec::to_bytes(&i64::MAX), vec![0x7f, 0xff, 0xff, 0xff, 0xff, 0xff, 0xff, 0xff]);
    assert_eq!(<i64 as Codec>::from_bytes(&Codec::to_bytes(&i64::MIN)), Ok((8, i64::MIN)));
}

#[test]
fn mean_of_signed_values_rounds_towards_zero() {
    assert_eq!(Scalar::mean(&-3i32, &0i32), -1);
    assert_eq!(Scalar::mean(&3i32, &0i32), 1);
    assert_eq!(Scalar::mean(&-3i32, &-4i32), -3);
    assert_eq!(Scalar::mean(&-10i32, &10i32), 0);
    assert_eq!(Scalar::mean(&i32::MIN, &i32::MIN), i32::MIN);
    assert_eq!(Scalar::mean(&i32::MAX, &i32::MAX), i32::MAX);
    assert_eq!(Scalar::mean(&i64::MIN, &i64::MAX), 0);
    assert_eq!(Scalar::mean(&i64::MIN, &(i64::MIN + 1)), i64::MIN + 1);
    assert!(Scalar::le(&-1i32, &0i32));
    assert!(!Scalar::le(&0i64, &-1i64));
}

#[test]
fn signed_point_round_trip() {
    let p: Mix2<i32, i64> = Mix2::new(Mix::Interval(-10, 10), Mix::Scalar(-5));
    let bytes = p.to_bytes();
    assert_eq!(
        bytes,
        vec![1, 0xff, 0xff, 0xff, 0xf6, 0, 0, 0, 10, 0xff, 0xff, 0xff, 0xff, 0xff, 0xff, 0xff, 0xfb]
    );
    assert_eq!(<Mix2<i32, i64> as Codec>::from_bytes(&bytes), Ok((17, p)));
}
