//! Single-value encode/decode checks: concrete byte vectors, round
//! trips, and every error kind.

use vartyint::VarInt;
use vartyint::VartyIntError;

#[test]
fn write2() {
    let mut veccy = Vec::new();
    vartyint::write_u128(128, &mut veccy);
    assert_eq!(veccy, vec![128, 1]);
}

#[test]
fn write3() {
    let mut veccy = Vec::new();
    vartyint::write_u8(0, &mut veccy);
    assert_eq!(veccy, vec![0]);
}

#[test]
fn write4() {
    let mut veccy = Vec::new();
    vartyint::write_u8(0_u8, &mut veccy);
    assert_eq!(veccy, vec![0]);
}

#[test]
fn write5() {
    let mut veccy = Vec::new();
    vartyint::write_u8(1_u8, &mut veccy);
    assert_eq!(veccy, vec![0b000_0001]);
}

#[test]
fn write6() {
    let mut veccy = Vec::new();
    vartyint::write_i8(1_i8, &mut veccy);
    assert_eq!(veccy, vec![0b000_0010]);
}

#[test]
fn write7() {
    let mut veccy = Vec::new();
    vartyint::write_i64(1_i64, &mut veccy);
    assert_eq!(veccy, vec![0b000_0010]);
}

#[test]
fn write8() {
    let mut veccy = Vec::new();
    vartyint::write_u32(300_u32, &mut veccy);
    assert_eq!(veccy, vec![0b1010_1100, 0b0000_0010]);
}

#[test]
fn write9() {
    let mut veccy = Vec::new();
    vartyint::write_i8(-1_i8, &mut veccy);
    assert_eq!(veccy, vec![0b000_0001]);
}

#[test]
fn write10() {
    let mut veccy = Vec::new();
    vartyint::write_i32(63_i32, &mut veccy);
    assert_eq!(veccy, vec![0x7e]);
}

#[test]
fn write11() {
    let mut veccy = Vec::new();
    vartyint::write_u32(63_u32, &mut veccy);
    assert_eq!(veccy, vec![63]);
}

#[test]
fn write12() {
    let mut veccy = Vec::new();
    vartyint::write_i32(-64_i32, &mut veccy);
    assert_eq!(veccy, vec![0x7f]);
}

#[test]
fn write13() {
    let mut veccy = Vec::new();
    vartyint::write_u32(127, &mut veccy);
    assert_eq!(veccy, vec![0b0111_1111]);
}

#[test]
fn write14() {
    let mut veccy = Vec::new();
    vartyint::write_u32(128, &mut veccy);
    assert_eq!(veccy, vec![0b1000_0000, 0b0000_0001]);
}

#[test]
fn write15() {
    let mut veccy = Vec::new();
    vartyint::write_usize(127, &mut veccy);
    assert_eq!(veccy, vec![0b0111_1111]);
}

#[test]
fn write16() {
    let mut veccy = Vec::new();
    vartyint::write_usize(128, &mut veccy);
    assert_eq!(veccy, vec![0b1000_0000, 0b0000_0001]);
}

#[test]
fn write17() {
    let mut veccy = Vec::new();
    vartyint::write_usize(7681, &mut veccy);
    assert_eq!(veccy, vec![129, 60]);
}

#[test]
fn write18() {
    let mut veccy = Vec::new();
    vartyint::write_i8(0, &mut veccy);
    assert_eq!(veccy, vec![0]);
}

#[test]
fn write19() {
    let mut veccy = Vec::new();
    vartyint::write_i32(0, &mut veccy);
    assert_eq!(veccy, vec![0]);
}

#[test]
fn write20() {
    let mut veccy = Vec::new();
    vartyint::write_u32(0, &mut veccy);
    assert_eq!(veccy, vec![0]);
}

#[test]
fn write21() {
    let mut veccy = Vec::new();
    vartyint::write_usize(12345, &mut veccy);
    assert_eq!(veccy, vec![185, 96]);
}

#[test]
fn write22() {
    let mut veccy = Vec::new();
    vartyint::write_isize(12345, &mut veccy);
    assert_eq!(veccy, vec![242, 192, 1]);
}

#[test]
fn write23() {
    let mut veccy = Vec::new();
    vartyint::write_i32(-1649404, &mut veccy);
    assert_eq!(veccy, vec![247, 171, 201, 1]);
}

#[test]
fn write24() {
    let mut veccy = Vec::new();
    vartyint::write_i32(2001649404, &mut veccy);
    assert_eq!(veccy, vec![248, 251, 245, 244, 14]);
}

#[test]
fn write25() {
    let mut veccy = Vec::new();
    vartyint::write_i32(1529263114, &mut veccy);
    assert_eq!(veccy, [148, 208, 181, 178, 11]);
}

#[test]
fn read2() {
    let (num, rest) = vartyint::read_usize(&[185, 96]).unwrap();
    assert_eq!(num, 12345);
    assert_eq!(rest, &[] as &[u8]);
}

#[test]
fn read3() {
    let (num, rest) = vartyint::read_usize(&[127]).unwrap();
    assert_eq!(num, 127);
    assert_eq!(rest, &[] as &[u8]);
}

#[test]
fn read4() {
    let (num, rest) = vartyint::read_usize(&[0b1000_0000, 0b0000_0001]).unwrap();
    assert_eq!(num, 128);
    assert_eq!(rest, &[] as &[u8]);
}

#[test]
fn read5() {
    let (num, rest) = vartyint::read_u8(&[0]).unwrap();
    assert_eq!(num, 0);
    assert_eq!(rest, &[] as &[u8]);
}

#[test]
fn read6() {
    let (num, rest) = vartyint::read_u8(&[0, 200]).unwrap();
    assert_eq!(num, 0);
    assert_eq!(rest, vec![200]);
}

#[test]
fn read7() {
    let (num, rest) = vartyint::read_u8(&[1]).unwrap();
    assert_eq!(num, 1);
    assert_eq!(rest, &[] as &[u8]);
}

#[test]
fn empty() {
    assert!(vartyint::read_u8(&[]).is_err());
}

#[test]
fn read9() {
    let (num, rest) = vartyint::read_i64(&[0, 200]).unwrap();
    assert_eq!(num, 0);
    assert_eq!(rest, vec![200]);
}

#[test]
fn read10() {
    let (num, rest) = vartyint::read_isize(&[242, 192, 1]).unwrap();
    assert_eq!(num, 12345);
    assert_eq!(rest, &[] as &[u8]);
}

#[test]
fn read11() {
    let (num, rest) = vartyint::read_usize(&[188, 1, 105, 117, 121]).unwrap();
    assert_eq!(num, 188);
    assert_eq!(rest, &[105, 117, 121]);
}

#[test]
fn read12() {
    let (num, rest) = vartyint::read_i8(&[0x00]).unwrap();
    assert_eq!(num, 0);
    assert_eq!(rest, &[] as &[u8]);
}

#[test]
fn read13() {
    let (num, rest) = vartyint::read_i8(&[0x01]).unwrap();
    assert_eq!(num, -1);
    assert_eq!(rest, &[] as &[u8]);
}

#[test]
fn read14() {
    let (num, rest) = vartyint::read_i8(&[0x02]).unwrap();
    assert_eq!(num, 1);
    assert_eq!(rest, &[] as &[u8]);
}

#[test]
fn read15() {
    let (num, rest) = vartyint::read_i8(&[0x03]).unwrap();
    assert_eq!(num, -2);
    assert_eq!(rest, &[] as &[u8]);
}

#[test]
fn read16() {
    let (num, rest) = vartyint::read_i8(&[0x04]).unwrap();
    assert_eq!(num, 2);
    assert_eq!(rest, &[] as &[u8]);
}

#[test]
fn read17() {
    let (num, rest) = vartyint::read_i32(&[0x02]).unwrap();
    assert_eq!(num, 1);
    assert_eq!(rest, &[] as &[u8]);
}

/// Ensure we get the same result out as in.
#[test]
fn varint_idempotent1() {
    let mut veccy = Vec::new();
    vartyint::write_isize(12_345, &mut veccy);
    let (num, rest) = vartyint::read_isize(&veccy).unwrap();
    assert_eq!(num, 12_345);
    assert!(rest.is_empty());

    let mut veccy = Vec::new();
    vartyint::write_isize(-12_345, &mut veccy);
    let (num, rest) = vartyint::read_isize(&veccy).unwrap();
    assert_eq!(num, -12_345);
    assert!(rest.is_empty());

    let mut veccy = Vec::new();
    vartyint::write_i8(1, &mut veccy);
    let (num, rest) = vartyint::read_i8(&veccy).unwrap();
    assert_eq!(num, 1);
    assert!(rest.is_empty());

    let mut veccy = Vec::new();
    vartyint::write_usize(127, &mut veccy);
    let (num, rest) = vartyint::read_usize(&veccy).unwrap();
    assert_eq!(num, 127);
    assert!(rest.is_empty());

    let mut veccy = Vec::new();
    vartyint::write_usize(128, &mut veccy);
    let (num, rest) = vartyint::read_usize(&veccy).unwrap();
    assert_eq!(num, 128);
    assert!(rest.is_empty());

    let mut veccy = Vec::new();
    vartyint::write_usize(12_345, &mut veccy);
    let (num, rest) = vartyint::read_usize(&veccy).unwrap();
    assert_eq!(num, 12_345);
    assert!(rest.is_empty());

    let mut veccy = Vec::new();
    vartyint::write_i64(50 << 10, &mut veccy);
    let (num, rest) = vartyint::read_i64(&veccy).unwrap();
    assert_eq!(num, 50 << 10);
    assert!(rest.is_empty());

    let mut veccy = Vec::new();
    vartyint::write_i32(1 << 29, &mut veccy);
    let (num, rest) = vartyint::read_i32(&veccy).unwrap();
    assert_eq!(num, 1 << 29);
    assert!(rest.is_empty());

    let mut veccy = Vec::new();
    vartyint::write_i32(1 << 30, &mut veccy);
    let (num, rest) = vartyint::read_i32(&veccy).unwrap();
    assert_eq!(num, 1 << 30);
    assert!(rest.is_empty());

    let mut veccy = Vec::new();
    vartyint::write_i32(1 << 31, &mut veccy);
    let (num, rest) = vartyint::read_i32(&veccy).unwrap();
    assert_eq!(num, 1 << 31);
    assert!(rest.is_empty());
}

/// a test case we saw
#[test]
fn siberia_boatable() {
    let mut veccy = Vec::new();
    vartyint::write_i32(1 << 30, &mut veccy);
    let (num, rest) = vartyint::read_i32(&veccy).unwrap();
    assert_eq!(num, 1 << 30);
    assert!(rest.is_empty());

    let mut veccy = Vec::new();
    vartyint::write_i32(1529263114, &mut veccy);
    let (num, rest) = vartyint::read_i32(&veccy).unwrap();
    assert_eq!(num, 1529263114);
    assert!(rest.is_empty());
}

#[test]
fn bad1() {
    assert_eq!(
        vartyint::read_u32(&[0b1010_1100]),
        Err(VartyIntError::NotEnoughBytes)
    );
    assert_eq!(
        vartyint::read_i32(&[0b1010_1100]),
        Err(VartyIntError::NotEnoughBytes)
    );

    assert_eq!(vartyint::read_i32(&[]), Err(VartyIntError::EmptyBuffer));
}

#[test]
fn bad2() {
    assert_eq!(
        vartyint::read_u8(&[128, 173, 226, 4]),
        Err(VartyIntError::TooManyBytesForType)
    );
    assert_eq!(
        vartyint::read_i8(&[128, 173, 226, 4]),
        Err(VartyIntError::TooManyBytesForType)
    );
    assert_eq!(
        vartyint::read_i16(&[128, 173, 226, 4]),
        Err(VartyIntError::TooManyBytesForType)
    );
    assert_eq!(
        vartyint::read_u16(&[128, 173, 226, 4]),
        Err(VartyIntError::TooManyBytesForType)
    );
    assert_eq!(
        vartyint::read_i32(&[128, 173, 226, 4]),
        Ok((5_000_000, &[] as &[u8]))
    );
    assert_eq!(
        vartyint::read_u32(&[128, 173, 226, 4]),
        Ok((10_000_000, &[] as &[u8]))
    );
}

#[test]
fn traits1() {
    let x: i32 = 1;
    assert_eq!(x.as_varint(), vec![0x02]);

    assert_eq!(i32::from_varint(&[0x02]), Ok((1, &[] as &[u8])));
}

/// The minimum of each signed width survives the zig-zag round trip.
#[test]
fn min_values_round_trip() {
    let mut veccy = Vec::new();
    vartyint::write_i8(i8::MIN, &mut veccy);
    assert_eq!(veccy, vec![0xFF, 0x01]);
    assert_eq!(vartyint::read_i8(&veccy), Ok((i8::MIN, &[] as &[u8])));

    let mut veccy = Vec::new();
    vartyint::write_i16(i16::MIN, &mut veccy);
    assert_eq!(vartyint::read_i16(&veccy), Ok((i16::MIN, &[] as &[u8])));

    let mut veccy = Vec::new();
    vartyint::write_i32(i32::MIN, &mut veccy);
    assert_eq!(vartyint::read_i32(&veccy), Ok((i32::MIN, &[] as &[u8])));

    let mut veccy = Vec::new();
    vartyint::write_i64(i64::MIN, &mut veccy);
    assert_eq!(vartyint::read_i64(&veccy), Ok((i64::MIN, &[] as &[u8])));

    let mut veccy = Vec::new();
    vartyint::write_i128(i128::MIN, &mut veccy);
    assert_eq!(vartyint::read_i128(&veccy), Ok((i128::MIN, &[] as &[u8])));

    let mut veccy = Vec::new();
    vartyint::write_isize(isize::MIN, &mut veccy);
    assert_eq!(vartyint::read_isize(&veccy), Ok((isize::MIN, &[] as &[u8])));
}

/// The largest unsigned values round-trip too.
#[test]
fn max_values_round_trip() {
    let mut veccy = Vec::new();
    vartyint::write_u128(u128::MAX, &mut veccy);
    assert_eq!(vartyint::read_u128(&veccy), Ok((u128::MAX, &[] as &[u8])));

    let mut veccy = Vec::new();
    vartyint::write_u64(u64::MAX, &mut veccy);
    assert_eq!(vartyint::read_u64(&veccy), Ok((u64::MAX, &[] as &[u8])));

    let mut veccy = Vec::new();
    vartyint::write_usize(usize::MAX, &mut veccy);
    assert_eq!(vartyint::read_usize(&veccy), Ok((usize::MAX, &[] as &[u8])));
}

/// Zero is one zero byte for every width, signed or unsigned.
#[test]
fn canonical_zero() {
    let mut veccy = Vec::new();
    vartyint::write_u8(0, &mut veccy);
    vartyint::write_u16(0, &mut veccy);
    vartyint::write_u32(0, &mut veccy);
    vartyint::write_u64(0, &mut veccy);
    vartyint::write_u128(0, &mut veccy);
    vartyint::write_usize(0, &mut veccy);
    vartyint::write_i8(0, &mut veccy);
    vartyint::write_i16(0, &mut veccy);
    vartyint::write_i32(0, &mut veccy);
    vartyint::write_i64(0, &mut veccy);
    vartyint::write_i128(0, &mut veccy);
    vartyint::write_isize(0, &mut veccy);
    assert_eq!(veccy, vec![0; 12]);
}

/// 127 is the largest one-byte unsigned value; 128 takes exactly two.
#[test]
fn one_byte_threshold() {
    let mut veccy = Vec::new();
    vartyint::write_u64(127, &mut veccy);
    assert_eq!(veccy.len(), 1);

    let mut veccy = Vec::new();
    vartyint::write_u64(128, &mut veccy);
    assert_eq!(veccy.len(), 2);

    let mut veccy = Vec::new();
    vartyint::write_u64(16383, &mut veccy);
    assert_eq!(veccy.len(), 2);

    let mut veccy = Vec::new();
    vartyint::write_u64(16384, &mut veccy);
    assert_eq!(veccy.len(), 3);
}

/// A prefix cut mid-continuation reports the truncation, for every
/// width; a wholly empty input is reported apart.
#[test]
fn truncated_prefixes() {
    let mut veccy = Vec::new();
    vartyint::write_u64(1_000_000, &mut veccy);
    for cut in 1..veccy.len() {
        assert_eq!(
            vartyint::read_u64(&veccy[..cut]),
            Err(VartyIntError::NotEnoughBytes)
        );
    }
    assert_eq!(vartyint::read_u64(&[]), Err(VartyIntError::EmptyBuffer));
    assert_eq!(vartyint::read_u128(&[0xFF]), Err(VartyIntError::NotEnoughBytes));
    assert_eq!(vartyint::read_usize(&[]), Err(VartyIntError::EmptyBuffer));
}

/// The worked example from the crate documentation: three signed values
/// popped off one buffer, consuming all of it.
#[test]
fn pop_successive_values() {
    let my_bytes = vec![0x18, 0x01, 0xBF, 0xBB, 0x01];

    let (num1, my_bytes) = vartyint::read_i32(&my_bytes).unwrap();
    assert_eq!(num1, 12);
    assert_eq!(my_bytes, &[0x01, 0xBF, 0xBB, 0x01]);

    let (num2, my_bytes) = vartyint::read_i32(&my_bytes).unwrap();
    assert_eq!(num2, -1);
    assert_eq!(my_bytes, &[0xBF, 0xBB, 0x01]);

    let (num3, my_bytes) = vartyint::read_i32(&my_bytes).unwrap();
    assert_eq!(num3, -12_000);
    assert_eq!(my_bytes, &[] as &[u8]);

    assert_eq!(vartyint::read_i32(&my_bytes), Err(VartyIntError::EmptyBuffer));
}

/// The wire format examples: 1000 signed, 300 unsigned, -64 signed.
#[test]
fn wire_format_examples() {
    let mut veccy = Vec::new();
    vartyint::write_i32(1000, &mut veccy);
    assert_eq!(veccy, vec![0xD0, 0x0F]);

    let mut veccy = Vec::new();
    vartyint::write_u32(300, &mut veccy);
    assert_eq!(veccy, vec![0xAC, 0x02]);

    let mut veccy = Vec::new();
    vartyint::write_i32(-64, &mut veccy);
    assert_eq!(veccy, vec![0x7F]);
}

/// The trait surface: zero, write_varint, read_varint.
#[test]
fn trait_surface() {
    assert_eq!(u32::zero(), 0);
    assert_eq!(i64::zero(), 0);

    let mut veccy = Vec::new();
    300u32.write_varint(&mut veccy);
    assert_eq!(veccy, vec![0xAC, 0x02]);

    assert_eq!(u32::read_varint(&[0xAC, 0x02]), Ok((300, &[] as &[u8])));
    assert_eq!(
        u8::read_varint(&[128, 173, 226, 4]),
        Err(VartyIntError::TooManyBytesForType)
    );
}
