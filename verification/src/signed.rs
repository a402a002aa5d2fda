//! The signed varint codec: zig-zag on top of the unsigned byte grouping.
//!
//! The zig-zag transform runs in a 128-bit intermediate, one bit wider
//! than any narrower signed width, so even the minimum representable
//! value of a width maps over without overflow.

use vstd::prelude::*;
use vstd::slice::slice_subrange;

verus! {

use crate::errors::VartyIntError;
use crate::unsigned::{read_mag, write_mag};
use crate::wire::{
    encode_mag, in_range, lemma_decode_bounds, lemma_native_signed_range, lemma_pow2_widths,
    lemma_unzigzag_range, lemma_width_caps, spec_read, unzigzag, zigzag,
};

/// The zig-zag image of a value, computed one bit wider than `i128` can
/// hold on its own.
fn zigzag_exec(v: i128) -> (u: u128)
    ensures
        u as nat == zigzag(v as int),
{
    if v >= 0 {
        (v as u128) * 2
    } else {
        ((-(v + 1)) as u128) * 2 + 1
    }
}

/// The value a zig-zag magnitude stands for.
fn unzigzag_exec(u: u128) -> (v: i128)
    ensures
        v as int == unzigzag(u as nat),
{
    let half = u / 2;
    if u % 2 == 0 {
        half as i128
    } else {
        -(half as i128) - 1
    }
}

/// Write an integer to this buffer.
pub fn write_i8(val: i8, buf: &mut Vec<u8>)
    ensures
        final(buf)@ == old(buf)@ + encode_mag(zigzag(val as int)),
{
    let u = zigzag_exec(val as i128);
    write_mag(u, buf)
}

/// Write an integer to this buffer.
pub fn write_i16(val: i16, buf: &mut Vec<u8>)
    ensures
        final(buf)@ == old(buf)@ + encode_mag(zigzag(val as int)),
{
    let u = zigzag_exec(val as i128);
    write_mag(u, buf)
}

/// Write an integer to this buffer.
pub fn write_i32(val: i32, buf: &mut Vec<u8>)
    ensures
        final(buf)@ == old(buf)@ + encode_mag(zigzag(val as int)),
{
    let u = zigzag_exec(val as i128);
    write_mag(u, buf)
}

/// Write an integer to this buffer.
pub fn write_i64(val: i64, buf: &mut Vec<u8>)
    ensures
        final(buf)@ == old(buf)@ + encode_mag(zigzag(val as int)),
{
    let u = zigzag_exec(val as i128);
    write_mag(u, buf)
}

/// Write an integer to this buffer.
pub fn write_i128(val: i128, buf: &mut Vec<u8>)
    ensures
        final(buf)@ == old(buf)@ + encode_mag(zigzag(val as int)),
{
    let u = zigzag_exec(val);
    write_mag(u, buf)
}

/// Write an integer to this buffer.
pub fn write_isize(val: isize, buf: &mut Vec<u8>)
    ensures
        final(buf)@ == old(buf)@ + encode_mag(zigzag(val as int)),
{
    let u = zigzag_exec(val as i128);
    write_mag(u, buf)
}

/// Read an integer from this buffer.  On success the unread suffix of
/// the buffer is returned beside the value.
pub fn read_i8(buf: &[u8]) -> (r: Result<(i8, &[u8]), VartyIntError>)
    ensures
        ({
            let sr = spec_read(buf@, u8::MAX as nat);
            match r {
                Ok((v, rest)) => sr matches Ok((sv, sn)) && v as int == unzigzag(sv) && rest@
                    == buf@.skip(sn as int),
                Err(e) => sr == Err::<(nat, nat), VartyIntError>(e),
            }
        }),
{
    proof {
        lemma_width_caps();
    }
    match read_mag(buf, u8::MAX as u128) {
        Ok((u, n)) => {
            proof {
                lemma_pow2_widths();
                lemma_decode_bounds(buf@, u8::MAX as nat, 0, 0);
                lemma_unzigzag_range(u as nat, 8);
                assert(buf@.subrange(n as int, buf@.len() as int) =~= buf@.skip(n as int));
            }
            let v = unzigzag_exec(u);
            Ok((v as i8, slice_subrange(buf, n, buf.len())))
        },
        Err(e) => Err(e),
    }
}

/// Read an integer from this buffer.  On success the unread suffix of
/// the buffer is returned beside the value.
pub fn read_i16(buf: &[u8]) -> (r: Result<(i16, &[u8]), VartyIntError>)
    ensures
        ({
            let sr = spec_read(buf@, u16::MAX as nat);
            match r {
                Ok((v, rest)) => sr matches Ok((sv, sn)) && v as int == unzigzag(sv) && rest@
                    == buf@.skip(sn as int),
                Err(e) => sr == Err::<(nat, nat), VartyIntError>(e),
            }
        }),
{
    proof {
        lemma_width_caps();
    }
    match read_mag(buf, u16::MAX as u128) {
        Ok((u, n)) => {
            proof {
                lemma_pow2_widths();
                lemma_decode_bounds(buf@, u16::MAX as nat, 0, 0);
                lemma_unzigzag_range(u as nat, 16);
                assert(buf@.subrange(n as int, buf@.len() as int) =~= buf@.skip(n as int));
            }
            let v = unzigzag_exec(u);
            Ok((v as i16, slice_subrange(buf, n, buf.len())))
        },
        Err(e) => Err(e),
    }
}

/// Read an integer from this buffer.  On success the unread suffix of
/// the buffer is returned beside the value.
pub fn read_i32(buf: &[u8]) -> (r: Result<(i32, &[u8]), VartyIntError>)
    ensures
        ({
            let sr = spec_read(buf@, u32::MAX as nat);
            match r {
                Ok((v, rest)) => sr matches Ok((sv, sn)) && v as int == unzigzag(sv) && rest@
                    == buf@.skip(sn as int),
                Err(e) => sr == Err::<(nat, nat), VartyIntError>(e),
            }
        }),
{
    proof {
        lemma_width_caps();
    }
    match read_mag(buf, u32::MAX as u128) {
        Ok((u, n)) => {
            proof {
                lemma_pow2_widths();
                lemma_decode_bounds(buf@, u32::MAX as nat, 0, 0);
                lemma_unzigzag_range(u as nat, 32);
                assert(buf@.subrange(n as int, buf@.len() as int) =~= buf@.skip(n as int));
            }
            let v = unzigzag_exec(u);
            Ok((v as i32, slice_subrange(buf, n, buf.len())))
        },
        Err(e) => Err(e),
    }
}

/// Read an integer from this buffer.  On success the unread suffix of
/// the buffer is returned beside the value.
pub fn read_i64(buf: &[u8]) -> (r: Result<(i64, &[u8]), VartyIntError>)
    ensures
        ({
            let sr = spec_read(buf@, u64::MAX as nat);
            match r {
                Ok((v, rest)) => sr matches Ok((sv, sn)) && v as int == unzigzag(sv) && rest@
                    == buf@.skip(sn as int),
                Err(e) => sr == Err::<(nat, nat), VartyIntError>(e),
            }
        }),
{
    proof {
        lemma_width_caps();
    }
    match read_mag(buf, u64::MAX as u128) {
        Ok((u, n)) => {
            proof {
                lemma_pow2_widths();
                lemma_decode_bounds(buf@, u64::MAX as nat, 0, 0);
                lemma_unzigzag_range(u as nat, 64);
                assert(buf@.subrange(n as int, buf@.len() as int) =~= buf@.skip(n as int));
            }
            let v = unzigzag_exec(u);
            Ok((v as i64, slice_subrange(buf, n, buf.len())))
        },
        Err(e) => Err(e),
    }
}

/// Read an integer from this buffer.  On success the unread suffix of
/// the buffer is returned beside the value.
pub fn read_i128(buf: &[u8]) -> (r: Result<(i128, &[u8]), VartyIntError>)
    ensures
        ({
            let sr = spec_read(buf@, u128::MAX as nat);
            match r {
                Ok((v, rest)) => sr matches Ok((sv, sn)) && v as int == unzigzag(sv) && rest@
                    == buf@.skip(sn as int),
                Err(e) => sr == Err::<(nat, nat), VartyIntError>(e),
            }
        }),
{
    proof {
        lemma_width_caps();
    }
    match read_mag(buf, u128::MAX) {
        Ok((u, n)) => {
            proof {
                assert(buf@.subrange(n as int, buf@.len() as int) =~= buf@.skip(n as int));
            }
            let v = unzigzag_exec(u);
            Ok((v, slice_subrange(buf, n, buf.len())))
        },
        Err(e) => Err(e),
    }
}

/// Read an integer from this buffer.  On success the unread suffix of
/// the buffer is returned beside the value.
pub fn read_isize(buf: &[u8]) -> (r: Result<(isize, &[u8]), VartyIntError>)
    ensures
        ({
            let sr = spec_read(buf@, usize::MAX as nat);
            match r {
                Ok((v, rest)) => sr matches Ok((sv, sn)) && v as int == unzigzag(sv) && rest@
                    == buf@.skip(sn as int),
                Err(e) => sr == Err::<(nat, nat), VartyIntError>(e),
            }
        }),
{
    proof {
        lemma_width_caps();
    }
    match read_mag(buf, usize::MAX as u128) {
        Ok((u, n)) => {
            proof {
                lemma_pow2_widths();
                lemma_decode_bounds(buf@, usize::MAX as nat, 0, 0);
                lemma_unzigzag_range(u as nat, usize::BITS as nat);
                lemma_native_signed_range();
                assert(in_range(unzigzag(u as nat), usize::BITS as nat, true));
                assert(buf@.subrange(n as int, buf@.len() as int) =~= buf@.skip(n as int));
            }
            let v = unzigzag_exec(u);
            Ok((v as isize, slice_subrange(buf, n, buf.len())))
        },
        Err(e) => Err(e),
    }
}

} // verus!
