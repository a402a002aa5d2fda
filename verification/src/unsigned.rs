//! The unsigned varint codec: one write/read pair per supported width,
//! all built on a single core that works on 128-bit magnitudes.

use vstd::prelude::*;
use vstd::arithmetic::power2::{
    lemma_pow2_pos, lemma_pow2_strictly_increases, pow2,
};
use vstd::arithmetic::mul::lemma_mul_inequality;
use vstd::slice::slice_subrange;

verus! {

use crate::errors::VartyIntError;
use crate::wire::{
    decode_rec, encode_mag, is_cap, lemma_acc_next, lemma_cap_below, lemma_decode_bounds,
    lemma_group_fits, lemma_mul_le_iff_le_div, lemma_pow2_widths, lemma_width_caps, shifted_result,
    spec_read,
};

/// Append the base-128 encoding of a magnitude to `buf`.
pub(crate) fn write_mag(val: u128, buf: &mut Vec<u8>)
    ensures
        final(buf)@ == old(buf)@ + encode_mag(val as nat),
{
    let mut v: u128 = val;
    while v >= 128
        invariant
            old(buf)@ + encode_mag(val as nat) == buf@ + encode_mag(v as nat),
        decreases v,
    {
        let digit: u8 = (v % 128) as u8;
        buf.push(digit + 128);
        assert(old(buf)@ + encode_mag(val as nat) =~= buf@ + encode_mag((v / 128) as nat));
        v = v / 128;
    }
    buf.push(v as u8);
    assert(buf@ =~= old(buf)@ + encode_mag(val as nat));
}

/// Decode one magnitude from the front of `buf` against capacity `max`,
/// returning the value and the number of bytes consumed.
pub(crate) fn read_mag(buf: &[u8], max: u128) -> (r: Result<(u128, usize), VartyIntError>)
    requires
        is_cap(max as nat),
    ensures
        ({
            let sr = spec_read(buf@, max as nat);
            match r {
                Ok((v, n)) => sr == Ok::<(nat, nat), VartyIntError>((v as nat, n as nat)) && n
                    <= buf@.len(),
                Err(e) => sr == Err::<(nat, nat), VartyIntError>(e),
            }
        }),
{
    let len: usize = buf.len();
    if len == 0 {
        return Err(VartyIntError::EmptyBuffer);
    }
    let mut i: usize = 0;
    let mut acc: u128 = 0;
    let mut mult: u128 = 1;
    let mut shift: u32 = 0;
    let ghost mut gshift: nat = 0;
    proof {
        lemma_pow2_widths();
        assert(buf@.skip(0) =~= buf@);
    }
    loop
        invariant
            buf@.len() == len,
            i <= len,
            is_cap(max as nat),
            acc <= max,
            (acc as nat) < pow2(gshift),
            gshift % 7 == 0,
            (gshift <= 126 && shift as nat == gshift && mult as nat == pow2(gshift)) || (gshift
                >= 133 && shift == 133),
            spec_read(buf@, max as nat) == shifted_result(
                decode_rec(buf@.skip(i as int), max as nat, gshift, acc as nat),
                i as nat,
            ),
        decreases len - i,
    {
        if i >= len {
            proof {
                assert(buf@.skip(i as int).len() == 0);
            }
            return Err(VartyIntError::NotEnoughBytes);
        }
        let ghost i0 = i as int;
        let ghost acc0 = acc as nat;
        let b: u8 = buf[i];
        let g: u8 = b % 128;
        proof {
            assert(buf@.skip(i0)[0] == b);
        }
        if g != 0 {
            if shift >= 128 {
                proof {
                    lemma_pow2_widths();
                    lemma_pow2_strictly_increases(128, gshift);
                    lemma_cap_below(max as nat);
                    lemma_mul_inequality(1, g as int, pow2(gshift) as int);
                }
                return Err(VartyIntError::TooManyBytesForType);
            }
            proof {
                lemma_pow2_pos(gshift);
            }
            let limit: u128 = max / mult;
            proof {
                lemma_mul_le_iff_le_div(g as nat, max as nat, pow2(gshift));
            }
            if (g as u128) > limit {
                return Err(VartyIntError::TooManyBytesForType);
            }
            proof {
                lemma_group_fits(acc as nat, g as nat, gshift, max as nat);
                assert(mult as nat == pow2(gshift));
            }
            acc = acc + (g as u128) * mult;
        }
        i = i + 1;
        proof {
            if g == 0 {
                vstd::arithmetic::mul::lemma_mul_by_zero_is_zero(pow2(gshift) as int);
            }
            assert(acc as nat == acc0 + (g as nat) * pow2(gshift));
            assert((g as nat) * pow2(gshift) <= max as nat);
        }
        if b < 128 {
            proof {
                assert(decode_rec(buf@.skip(i0), max as nat, gshift, acc0)
                    == Ok::<(nat, nat), VartyIntError>((acc as nat, 1)));
            }
            return Ok((acc, i));
        }
        proof {
            lemma_acc_next((acc - (g as int) * (mult as int)) as nat, g as nat, gshift);
            assert(buf@.skip((i - 1) as int).skip(1) =~= buf@.skip(i as int));
            gshift = gshift + 7;
        }
        if shift < 128 {
            shift = shift + 7;
            if shift < 128 {
                proof {
                    lemma_pow2_widths();
                    lemma_pow2_strictly_increases(gshift, 128);
                    vstd::arithmetic::power2::lemma_pow2_adds((gshift - 7) as nat, 7);
                }
                mult = mult * 128;
            }
        }
    }
}

/// Write an integer to this buffer.
pub fn write_u8(val: u8, buf: &mut Vec<u8>)
    ensures
        final(buf)@ == old(buf)@ + encode_mag(val as nat),
{
    write_mag(val as u128, buf)
}

/// Write an integer to this buffer.
pub fn write_u16(val: u16, buf: &mut Vec<u8>)
    ensures
        final(buf)@ == old(buf)@ + encode_mag(val as nat),
{
    write_mag(val as u128, buf)
}

/// Write an integer to this buffer.
pub fn write_u32(val: u32, buf: &mut Vec<u8>)
    ensures
        final(buf)@ == old(buf)@ + encode_mag(val as nat),
{
    write_mag(val as u128, buf)
}

/// Write an integer to this buffer.
pub fn write_u64(val: u64, buf: &mut Vec<u8>)
    ensures
        final(buf)@ == old(buf)@ + encode_mag(val as nat),
{
    write_mag(val as u128, buf)
}

/// Write an integer to this buffer.
pub fn write_u128(val: u128, buf: &mut Vec<u8>)
    ensures
        final(buf)@ == old(buf)@ + encode_mag(val as nat),
{
    write_mag(val, buf)
}

/// Write an integer to this buffer.
pub fn write_usize(val: usize, buf: &mut Vec<u8>)
    ensures
        final(buf)@ == old(buf)@ + encode_mag(val as nat),
{
    write_mag(val as u128, buf)
}

/// Read an integer from this buffer.  On success the unread suffix of
/// the buffer is returned beside the value.
pub fn read_u8(buf: &[u8]) -> (r: Result<(u8, &[u8]), VartyIntError>)
    ensures
        ({
            let sr = spec_read(buf@, u8::MAX as nat);
            match r {
                Ok((v, rest)) => sr matches Ok((sv, sn)) && v as nat == sv && rest@ == buf@.skip(
                    sn as int,
                ),
                Err(e) => sr == Err::<(nat, nat), VartyIntError>(e),
            }
        }),
{
    proof {
        lemma_width_caps();
    }
    match read_mag(buf, u8::MAX as u128) {
        Ok((v, n)) => {
            proof {
                lemma_pow2_widths();
                lemma_decode_bounds(buf@, u8::MAX as nat, 0, 0);
                assert(buf@.subrange(n as int, buf@.len() as int) =~= buf@.skip(n as int));
            }
            Ok((v as u8, slice_subrange(buf, n, buf.len())))
        },
        Err(e) => Err(e),
    }
}

/// Read an integer from this buffer.  On success the unread suffix of
/// the buffer is returned beside the value.
pub fn read_u16(buf: &[u8]) -> (r: Result<(u16, &[u8]), VartyIntError>)
    ensures
        ({
            let sr = spec_read(buf@, u16::MAX as nat);
            match r {
                Ok((v, rest)) => sr matches Ok((sv, sn)) && v as nat == sv && rest@ == buf@.skip(
                    sn as int,
                ),
                Err(e) => sr == Err::<(nat, nat), VartyIntError>(e),
            }
        }),
{
    proof {
        lemma_width_caps();
    }
    match read_mag(buf, u16::MAX as u128) {
        Ok((v, n)) => {
            proof {
                lemma_pow2_widths();
                lemma_decode_bounds(buf@, u16::MAX as nat, 0, 0);
                assert(buf@.subrange(n as int, buf@.len() as int) =~= buf@.skip(n as int));
            }
            Ok((v as u16, slice_subrange(buf, n, buf.len())))
        },
        Err(e) => Err(e),
    }
}

/// Read an integer from this buffer.  On success the unread suffix of
/// the buffer is returned beside the value.
pub fn read_u32(buf: &[u8]) -> (r: Result<(u32, &[u8]), VartyIntError>)
    ensures
        ({
            let sr = spec_read(buf@, u32::MAX as nat);
            match r {
                Ok((v, rest)) => sr matches Ok((sv, sn)) && v as nat == sv && rest@ == buf@.skip(
                    sn as int,
                ),
                Err(e) => sr == Err::<(nat, nat), VartyIntError>(e),
            }
        }),
{
    proof {
        lemma_width_caps();
    }
    match read_mag(buf, u32::MAX as u128) {
        Ok((v, n)) => {
            proof {
                lemma_pow2_widths();
                lemma_decode_bounds(buf@, u32::MAX as nat, 0, 0);
                assert(buf@.subrange(n as int, buf@.len() as int) =~= buf@.skip(n as int));
            }
            Ok((v as u32, slice_subrange(buf, n, buf.len())))
        },
        Err(e) => Err(e),
    }
}

/// Read an integer from this buffer.  On success the unread suffix of
/// the buffer is returned beside the value.
pub fn read_u64(buf: &[u8]) -> (r: Result<(u64, &[u8]), VartyIntError>)
    ensures
        ({
            let sr = spec_read(buf@, u64::MAX as nat);
            match r {
                Ok((v, rest)) => sr matches Ok((sv, sn)) && v as nat == sv && rest@ == buf@.skip(
                    sn as int,
                ),
                Err(e) => sr == Err::<(nat, nat), VartyIntError>(e),
            }
        }),
{
    proof {
        lemma_width_caps();
    }
    match read_mag(buf, u64::MAX as u128) {
        Ok((v, n)) => {
            proof {
                lemma_pow2_widths();
                lemma_decode_bounds(buf@, u64::MAX as nat, 0, 0);
                assert(buf@.subrange(n as int, buf@.len() as int) =~= buf@.skip(n as int));
            }
            Ok((v as u64, slice_subrange(buf, n, buf.len())))
        },
        Err(e) => Err(e),
    }
}

/// Read an integer from this buffer.  On success the unread suffix of
/// the buffer is returned beside the value.
pub fn read_u128(buf: &[u8]) -> (r: Result<(u128, &[u8]), VartyIntError>)
    ensures
        ({
            let sr = spec_read(buf@, u128::MAX as nat);
            match r {
                Ok((v, rest)) => sr matches Ok((sv, sn)) && v as nat == sv && rest@ == buf@.skip(
                    sn as int,
                ),
                Err(e) => sr == Err::<(nat, nat), VartyIntError>(e),
            }
        }),
{
    proof {
        lemma_width_caps();
    }
    match read_mag(buf, u128::MAX) {
        Ok((v, n)) => {
            proof {
                assert(buf@.subrange(n as int, buf@.len() as int) =~= buf@.skip(n as int));
            }
            Ok((v, slice_subrange(buf, n, buf.len())))
        },
        Err(e) => Err(e),
    }
}

/// Read an integer from this buffer.  On success the unread suffix of
/// the buffer is returned beside the value.
pub fn read_usize(buf: &[u8]) -> (r: Result<(usize, &[u8]), VartyIntError>)
    ensures
        ({
            let sr = spec_read(buf@, usize::MAX as nat);
            match r {
                Ok((v, rest)) => sr matches Ok((sv, sn)) && v as nat == sv && rest@ == buf@.skip(
                    sn as int,
                ),
                Err(e) => sr == Err::<(nat, nat), VartyIntError>(e),
            }
        }),
{
    proof {
        lemma_width_caps();
    }
    match read_mag(buf, usize::MAX as u128) {
        Ok((v, n)) => {
            proof {
                lemma_pow2_widths();
                lemma_decode_bounds(buf@, usize::MAX as nat, 0, 0);
                assert(buf@.subrange(n as int, buf@.len() as int) =~= buf@.skip(n as int));
            }
            Ok((v as usize, slice_subrange(buf, n, buf.len())))
        },
        Err(e) => Err(e),
    }
}

} // verus!
