//! Sequence codec checks: plain lists, delta-encoded lists, and the
//! wrap-around behaviour of unsigned deltas.

use vartyint::VartyIntError;

#[test]
fn vecs1() {
    assert_eq!(vartyint::write_many_new(&[1u8, 1, 2]), vec![1, 1, 2]);
    assert_eq!(
        vartyint::write_many_new(&[1u64, 1 << 5, 2 << 8]),
        vec![1, 32, 128, 4]
    );

    assert_eq!(
        vartyint::read_many::<u64>(&[1, 32, 128, 4])
            .into_iter()
            .collect::<Result<Vec<u64>, _>>()
            .unwrap(),
        vec![1, 1 << 5, 2 << 8]
    );
}

#[test]
fn delta_write_empty() {
    assert_eq!(
        vartyint::write_many_delta_new(&[] as &[u8]),
        vec![] as Vec<u8>
    );
}

#[test]
fn delta_write_single() {
    assert_eq!(
        vartyint::write_many_delta_new(&[10_000i64]),
        vec![160, 156, 1]
    );
}

#[test]
fn delta_write2() {
    assert_eq!(
        vartyint::write_many_delta_new(&[10_000i64, 10_001, 10_002]),
        vec![160, 156, 1, 2, 2]
    );
}

#[test]
fn delta_write3() {
    assert_eq!(
        vartyint::write_many_delta_new(&[10_000i64, 2]),
        vec![160, 156, 1, 155, 156, 1]
    );
}

#[test]
fn delta_write4() {
    assert_eq!(vartyint::write_many_delta_new(&[10, 9, 8]), vec![20, 1, 1]);
}

#[test]
fn delta_write5() {
    assert_eq!(vartyint::write_many_delta_new(&[10, 10]), vec![20, 0]);
}

#[test]
fn delta_write6() {
    assert_eq!(vartyint::write_many_delta_new(&[10, 9]), vec![20, 1]);
}

#[test]
fn delta_read_empty() {
    let out: Vec<i32> = vartyint::read_many_delta::<i32>(&[])
        .into_iter()
        .collect::<Result<Vec<_>, _>>()
        .unwrap();
    assert_eq!(out, vec![] as Vec<i32>);
}

#[test]
fn delta_read1() {
    let out = vartyint::read_many_delta::<i64>(&[160, 156, 1])
        .into_iter()
        .collect::<Result<Vec<_>, _>>()
        .unwrap();
    assert_eq!(out, vec![10_000_i64]);
}

#[test]
fn delta_read2() {
    let out = vartyint::read_many_delta::<i64>(&[160, 156, 1, 2])
        .into_iter()
        .collect::<Result<Vec<_>, _>>()
        .unwrap();
    assert_eq!(out, vec![10_000_i64, 10_001]);
}

#[test]
fn delta_read3() {
    let out = vartyint::read_many_delta::<i64>(&[160, 156, 1, 2, 2])
        .into_iter()
        .collect::<Result<Vec<_>, _>>()
        .unwrap();
    assert_eq!(out, vec![10_000_i64, 10_001, 10_002]);
}

/// An unsigned sequence that decreases wraps its difference at the
/// width's modulus and still round-trips exactly.
#[test]
fn delta_unsigned_wraps() {
    let bytes = vartyint::write_many_delta_new(&[10u8, 9]);
    assert_eq!(bytes, vec![10, 255, 1]);
    assert_eq!(
        vartyint::read_many_delta_new::<u8>(&bytes),
        Ok(vec![10u8, 9])
    );
}

/// Non-monotonic signed values round-trip through the delta codec.
#[test]
fn delta_round_trips() {
    let vals: Vec<i32> = vec![5, -3, 1_000_000, -7, 0, i32::MIN, i32::MAX];
    let bytes = vartyint::write_many_delta_new(&vals);
    assert_eq!(vartyint::read_many_delta_new::<i32>(&bytes), Ok(vals));
}

#[test]
fn delta_new_collects() {
    assert_eq!(
        vartyint::read_many_delta_new::<i64>(&[160, 156, 1, 2]),
        Ok(vec![10_000_i64, 10_001])
    );
    assert_eq!(
        vartyint::read_many_delta_new::<i64>(&[160, 156]),
        Err(VartyIntError::NotEnoughBytes)
    );
}

/// A stream whose element overflows the target width surfaces the
/// failure as the last produced item.
#[test]
fn read_many_surfaces_errors() {
    let items = vartyint::read_many::<u8>(&[1, 2, 128, 173, 226, 4]);
    assert_eq!(
        items,
        vec![Ok(1u8), Ok(2u8), Err(VartyIntError::TooManyBytesForType)]
    );

    let items = vartyint::read_many::<u32>(&[3, 0b1000_0000]);
    assert_eq!(items, vec![Ok(3u32), Err(VartyIntError::NotEnoughBytes)]);
}

/// Writing many appends to the buffer the caller handed in.
#[test]
fn write_many_appends() {
    let mut buf = vec![9u8];
    vartyint::write_many(&[1u16, 300], &mut buf);
    assert_eq!(buf, vec![9, 1, 0xAC, 0x02]);

    let mut buf = vec![7u8];
    vartyint::write_many_delta(&[10i32, 9], &mut buf);
    assert_eq!(buf, vec![7, 20, 1]);
}
