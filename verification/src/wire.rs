//! The mathematical model of the wire format.
//!
//! A magnitude (an unsigned mathematical integer) is encoded little-endian in
//! groups of seven bits; every byte but the last carries a continuation bit
//! (the byte's value is then 128 plus the group).  Signed values travel as
//! their zig-zag magnitude.  Everything the executable codec promises is
//! stated over these functions.

use vstd::prelude::*;
use vstd::arithmetic::div_mod::{
    lemma_add_mod_noop, lemma_mod_add_multiples_vanish, lemma_mod_bound, lemma_mod_twice,
    lemma_small_mod,
    lemma_div_by_multiple, lemma_div_is_ordered, lemma_fundamental_div_mod,
};
use vstd::arithmetic::power2::{
    lemma2_to64, lemma2_to64_rest, lemma_pow2_adds, lemma_pow2_pos, lemma_pow2_strictly_increases,
    pow2,
};

verus! {

use crate::errors::VartyIntError;

/// The canonical encoding of a magnitude: its base-128 digits, least
/// significant first; every digit but the last is marked with 128.
/// Zero encodes as a single zero byte, and no trailing zero group is
/// ever emitted.
pub open spec fn encode_mag(u: nat) -> Seq<u8>
    decreases u,
{
    if u < 128 {
        seq![u as u8]
    } else {
        seq![(128 + u % 128) as u8] + encode_mag(u / 128)
    }
}

/// The zig-zag image of a signed value: non-negative `v` maps to `2v`,
/// negative `v` to `-2v - 1`, so small magnitudes of either sign encode
/// into few bytes.
pub open spec fn zigzag(v: int) -> nat {
    if v >= 0 {
        (2 * v) as nat
    } else {
        (-2 * v - 1) as nat
    }
}

/// The inverse of [`zigzag`]: even magnitudes come back non-negative,
/// odd ones negative.
pub open spec fn unzigzag(u: nat) -> int {
    if u % 2 == 0 {
        (u / 2) as int
    } else {
        -((u / 2) as int) - 1
    }
}

/// The largest magnitude an integer width of `bits` bits can carry:
/// `2^bits - 1`.  For a signed width this is the range of its zig-zag
/// image, for an unsigned width the range of the values themselves.
pub open spec fn cap_max(bits: nat) -> nat {
    (pow2(bits) - 1) as nat
}

/// A decoder capacity: the largest magnitude of some supported width.
pub open spec fn is_cap(max: nat) -> bool {
    exists|w: nat| 1 <= w <= 128 && max == cap_max(w)
}

/// One element decoded from the front of `s` against capacity `max`,
/// starting with `acc` already accumulated below bit position `shift`.
/// Returns the decoded magnitude and the number of bytes consumed.
///
/// Each byte's low seven bits are merged at the current bit offset; a
/// group whose set bits would not fit under `max` fails with
/// `TooManyBytesForType`, and a view exhausted while a continuation bit
/// is pending fails with `NotEnoughBytes`.
pub open spec fn decode_rec(s: Seq<u8>, max: nat, shift: nat, acc: nat) -> Result<
    (nat, nat),
    VartyIntError,
>
    decreases s.len(),
{
    if s.len() == 0 {
        Err(VartyIntError::NotEnoughBytes)
    } else {
        let g = (s[0] % 128) as nat;
        if g * pow2(shift) > max {
            Err(VartyIntError::TooManyBytesForType)
        } else if s[0] < 128 {
            Ok(((acc + g * pow2(shift)) as nat, 1))
        } else {
            match decode_rec(s.skip(1), max, shift + 7, (acc + g * pow2(shift)) as nat) {
                Ok((v, n)) => Ok((v, (n + 1) as nat)),
                Err(e) => Err(e),
            }
        }
    }
}

/// One element decoded from the front of `s` against capacity `max`.
/// An empty view fails with `EmptyBuffer` before any byte is looked at.
pub open spec fn spec_read(s: Seq<u8>, max: nat) -> Result<(nat, nat), VartyIntError> {
    if s.len() == 0 {
        Err(VartyIntError::EmptyBuffer)
    } else {
        decode_rec(s, max, 0, 0)
    }
}

/// The magnitude a value of the given signedness puts on the wire.
pub open spec fn mag_of(x: int, signed: bool) -> nat {
    if signed {
        zigzag(x)
    } else {
        x as nat
    }
}

/// The value a decoded magnitude stands for, given the signedness.
pub open spec fn val_of_mag(u: nat, signed: bool) -> int {
    if signed {
        unzigzag(u)
    } else {
        u as int
    }
}

/// Whether `x` is representable in a width of `bits` bits of the given
/// signedness.
pub open spec fn in_range(x: int, bits: nat, signed: bool) -> bool {
    if signed {
        -(pow2((bits - 1) as nat) as int) <= x < pow2((bits - 1) as nat)
    } else {
        0 <= x < pow2(bits)
    }
}

/// `x` reduced modulo `2^bits` into the representable range of the
/// width: the wrap-around semantics of the delta codec.
pub open spec fn wrap_to_range(x: int, bits: nat, signed: bool) -> int {
    let m = pow2(bits) as int;
    let r = x % m;
    if signed && r >= pow2((bits - 1) as nat) {
        r - m
    } else {
        r
    }
}

/// The powers of two at the width boundaries the codec works with.
pub proof fn lemma_pow2_widths()
    ensures
        pow2(0) == 0x1,
        pow2(7) == 0x80,
        pow2(8) == 0x100,
        pow2(15) == 0x8000,
        pow2(16) == 0x1_0000,
        pow2(31) == 0x8000_0000,
        pow2(32) == 0x1_0000_0000,
        pow2(63) == 0x8000_0000_0000_0000,
        pow2(64) == 0x1_0000_0000_0000_0000,
        pow2(127) == 0x8000_0000_0000_0000_0000_0000_0000_0000,
        pow2(128) == 0x1_0000_0000_0000_0000_0000_0000_0000_0000,
{
    lemma2_to64();
    lemma2_to64_rest();
    lemma_pow2_adds(64, 63);
    lemma_pow2_adds(64, 64);
}

/// Comparing against a floor quotient is the same as comparing the
/// product: `x * d <= m` exactly when `x <= m / d`.
pub proof fn lemma_mul_le_iff_le_div(x: nat, m: nat, d: nat)
    requires
        d > 0,
    ensures
        x * d <= m <==> x <= m / d,
{
    let q = (m / d) as int;
    let r = (m as int) % (d as int);
    lemma_fundamental_div_mod(m as int, d as int);
    if x * d <= m {
        lemma_div_is_ordered((x * d) as int, m as int, d as int);
        lemma_div_by_multiple(x as int, d as int);
    }
    if x <= m / d {
        assert((m as int) == (d as int) * q + r);
        assert(x * d <= m) by (nonlinear_arith)
            requires
                x <= q,
                (m as int) == (d as int) * q + r,
                r >= 0,
                d > 0,
        ;
    }
}

/// A non-zero multiple of `pow2(shift)` that stays under `pow2(w)` leaves
/// room for one more `pow2(shift)` below `pow2(w)`.
proof fn lemma_multiple_room(g: nat, shift: nat, w: nat)
    requires
        g >= 1,
        g * pow2(shift) <= pow2(w) - 1,
    ensures
        g * pow2(shift) + pow2(shift) <= pow2(w),
{
    lemma_pow2_pos(shift);
    lemma_pow2_pos(w);
    assert(pow2(shift) <= g * pow2(shift)) by (nonlinear_arith)
        requires
            g >= 1,
            pow2(shift) > 0,
    ;
    if shift >= w {
        if shift > w {
            lemma_pow2_strictly_increases(w, shift);
        }
        assert(false);
    }
    lemma_pow2_adds(shift, (w - shift) as nat);
    lemma_pow2_pos((w - shift) as nat);
    let ps = pow2(shift) as int;
    let pd = pow2((w - shift) as nat) as int;
    assert(g < pd) by (nonlinear_arith)
        requires
            g * ps <= ps * pd - 1,
            ps > 0,
            pd > 0,
    ;
    assert(g * ps + ps <= ps * pd) by (nonlinear_arith)
        requires
            g + 1 <= pd,
            ps > 0,
    ;
}

/// Merging one more seven-bit group into an accumulator that sits below
/// the group's bit position cannot push it past the capacity.
pub proof fn lemma_group_fits(acc: nat, g: nat, shift: nat, max: nat)
    requires
        is_cap(max),
        acc <= max,
        acc < pow2(shift),
        g * pow2(shift) <= max,
    ensures
        acc + g * pow2(shift) <= max,
{
    if g >= 1 {
        let w = choose|w: nat| 1 <= w <= 128 && max == cap_max(w);
        lemma_pow2_pos(w);
        lemma_multiple_room(g, shift, w);
    }
}

/// The accumulator stays below the next group's bit position.
pub(crate) proof fn lemma_acc_next(acc: nat, g: nat, shift: nat)
    requires
        acc < pow2(shift),
        g < 128,
    ensures
        acc + g * pow2(shift) < pow2(shift + 7),
{
    lemma_pow2_adds(shift, 7);
    lemma2_to64();
    let ps = pow2(shift) as int;
    assert(acc + g * ps < ps * 128) by (nonlinear_arith)
        requires
            acc < ps,
            g < 128,
            ps > 0,
    ;
}

/// A successful decode consumes between one byte and the whole view, and
/// its magnitude never exceeds the capacity.
pub proof fn lemma_decode_bounds(s: Seq<u8>, max: nat, shift: nat, acc: nat)
    requires
        is_cap(max),
        acc <= max,
        acc < pow2(shift),
    ensures
        decode_rec(s, max, shift, acc) matches Ok((v, n)) ==> acc <= v <= max && 1 <= n
            <= s.len(),
    decreases s.len(),
{
    if s.len() != 0 {
        let g = (s[0] % 128) as nat;
        if g * pow2(shift) <= max {
            lemma_group_fits(acc, g, shift, max);
            if s[0] >= 128 {
                lemma_acc_next(acc, g, shift);
                lemma_decode_bounds(s.skip(1), max, shift + 7, (acc + g * pow2(shift)) as nat);
            }
        }
    }
}

/// Decoding an encoded magnitude, mid-stream: with `acc` gathered below
/// bit position `shift`, the bytes of `encode_mag(u)` decode to
/// `acc + u * pow2(shift)` and consume exactly the encoding, whatever
/// follows them.
pub proof fn lemma_decode_encode(u: nat, rest: Seq<u8>, max: nat, shift: nat, acc: nat)
    requires
        is_cap(max),
        acc < pow2(shift),
        acc + u * pow2(shift) <= max,
    ensures
        decode_rec(encode_mag(u) + rest, max, shift, acc) == Ok::<(nat, nat), VartyIntError>(
            ((acc + u * pow2(shift)) as nat, encode_mag(u).len()),
        ),
    decreases u,
{
    let s = encode_mag(u) + rest;
    let ps = pow2(shift) as int;
    lemma_pow2_pos(shift);
    assert(s[0] == encode_mag(u)[0]);
    if u < 128 {
        assert(s[0] == u as u8);
        assert((s[0] % 128) as nat == u);
        assert(u * pow2(shift) <= max);
    } else {
        let q = u / 128;
        let r = u % 128;
        lemma_fundamental_div_mod(u as int, 128);
        assert(s[0] == (128 + r) as u8);
        assert((s[0] % 128) as nat == r);
        assert(r * pow2(shift) <= u * pow2(shift)) by (nonlinear_arith)
            requires
                r <= u,
                pow2(shift) > 0,
        ;
        assert(s.skip(1) =~= encode_mag(q) + rest);
        lemma_acc_next(acc, r, shift);
        lemma_pow2_adds(shift, 7);
        lemma2_to64();
        let acc2 = (acc + r * pow2(shift)) as nat;
        assert(acc2 + q * pow2(shift + 7) == acc + u * pow2(shift)) by (nonlinear_arith)
            requires
                u == 128 * q + r,
                pow2(shift + 7) == pow2(shift) * 128,
                acc2 == acc + r * pow2(shift),
        ;
        lemma_decode_encode(q, rest, max, shift + 7, acc2);
        assert(encode_mag(u).len() == 1 + encode_mag(q).len());
    }
}

/// A proper, non-empty prefix of an encoded magnitude always ends while a
/// continuation bit is pending.
pub proof fn lemma_decode_prefix(u: nat, k: int, max: nat, shift: nat, acc: nat)
    requires
        is_cap(max),
        acc < pow2(shift),
        acc + u * pow2(shift) <= max,
        0 < k < encode_mag(u).len(),
    ensures
        decode_rec(encode_mag(u).take(k), max, shift, acc) == Err::<(nat, nat), VartyIntError>(
            VartyIntError::NotEnoughBytes,
        ),
    decreases u,
{
    let s = encode_mag(u).take(k);
    lemma_pow2_pos(shift);
    assert(encode_mag(u).len() > 1);
    assert(u >= 128);
    let q = u / 128;
    let r = u % 128;
    lemma_fundamental_div_mod(u as int, 128);
    assert(s[0] == encode_mag(u)[0]);
    assert(s[0] == (128 + r) as u8);
    assert((s[0] % 128) as nat == r);
    assert(r * pow2(shift) <= u * pow2(shift)) by (nonlinear_arith)
        requires
            r <= u,
            pow2(shift) > 0,
    ;
    assert(s.skip(1) =~= encode_mag(q).take(k - 1));
    if k == 1 {
        assert(s.skip(1).len() == 0);
    } else {
        lemma_acc_next(acc, r, shift);
        lemma_pow2_adds(shift, 7);
        lemma2_to64();
        let acc2 = (acc + r * pow2(shift)) as nat;
        assert(acc2 + q * pow2(shift + 7) == acc + u * pow2(shift)) by (nonlinear_arith)
            requires
                u == 128 * q + r,
                pow2(shift + 7) == pow2(shift) * 128,
                acc2 == acc + r * pow2(shift),
        ;
        lemma_decode_prefix(q, k - 1, max, shift + 7, acc2);
    }
}

/// A magnitude too large for the capacity is always caught: some group of
/// its encoding carries a set bit the capacity cannot hold.
pub proof fn lemma_decode_too_big(u: nat, rest: Seq<u8>, max: nat, shift: nat, acc: nat)
    requires
        is_cap(max),
        acc <= max,
        acc < pow2(shift),
        u * pow2(shift) > max,
    ensures
        decode_rec(encode_mag(u) + rest, max, shift, acc) == Err::<(nat, nat), VartyIntError>(
            VartyIntError::TooManyBytesForType,
        ),
    decreases u,
{
    let s = encode_mag(u) + rest;
    let ps = pow2(shift) as int;
    lemma_pow2_pos(shift);
    assert(s[0] == encode_mag(u)[0]);
    if u < 128 {
        assert((s[0] % 128) as nat == u);
    } else {
        let q = u / 128;
        let r = u % 128;
        lemma_fundamental_div_mod(u as int, 128);
        assert(s[0] == (128 + r) as u8);
        assert((s[0] % 128) as nat == r);
        if r * pow2(shift) <= max {
            lemma_pow2_adds(shift, 7);
            lemma2_to64();
            // The remaining groups must overflow the capacity on their own:
            // otherwise the whole magnitude would have fit.
            if q * pow2(shift + 7) <= max {
                let w = choose|w: nat| 1 <= w <= 128 && max == cap_max(w);
                lemma_pow2_pos(w);
                lemma_multiple_room(q, shift + 7, w);
                assert(u * pow2(shift) <= pow2(w) - 1) by (nonlinear_arith)
                    requires
                        u == 128 * q + r,
                        r < 128,
                        pow2(shift + 7) == pow2(shift) * 128,
                        q * pow2(shift + 7) + pow2(shift + 7) <= pow2(w),
                        pow2(shift) >= 1,
                ;
                assert(false);
            }
            assert(s.skip(1) =~= encode_mag(q) + rest);
            lemma_acc_next(acc, r, shift);
            lemma_group_fits(acc, r, shift, max);
            let acc2 = (acc + r * pow2(shift)) as nat;
            lemma_decode_too_big(q, rest, max, shift + 7, acc2);
        }
    }
}

/// A decode result as seen from `k` bytes further back in the stream:
/// the same outcome, with `k` more bytes consumed.
pub open spec fn shifted_result(r: Result<(nat, nat), VartyIntError>, k: nat) -> Result<
    (nat, nat),
    VartyIntError,
> {
    match r {
        Ok((v, n)) => Ok((v, (n + k) as nat)),
        Err(e) => Err(e),
    }
}

/// Every capacity lies below `pow2(128)`.
pub proof fn lemma_cap_below(max: nat)
    requires
        is_cap(max),
    ensures
        max < pow2(128),
{
    let w = choose|w: nat| 1 <= w <= 128 && max == cap_max(w);
    lemma_pow2_pos(w);
    if w < 128 {
        lemma_pow2_strictly_increases(w, 128);
    }
}

/// The `MAX` constants of the unsigned widths are exactly the codec's
/// capacities for those widths.
pub proof fn lemma_width_caps()
    ensures
        is_cap(u8::MAX as nat),
        is_cap(u16::MAX as nat),
        is_cap(u32::MAX as nat),
        is_cap(u64::MAX as nat),
        is_cap(u128::MAX as nat),
        is_cap(usize::MAX as nat),
        u8::MAX as nat == cap_max(8),
        u16::MAX as nat == cap_max(16),
        u32::MAX as nat == cap_max(32),
        u64::MAX as nat == cap_max(64),
        u128::MAX as nat == cap_max(128),
        usize::MAX as nat == cap_max(usize::BITS as nat),
        usize::BITS == 32 || usize::BITS == 64,
{
    lemma_pow2_widths();
    vstd::layout::unsigned_int_max_values();
    assert(cap_max(8) == u8::MAX as nat);
    assert(cap_max(16) == u16::MAX as nat);
    assert(cap_max(32) == u32::MAX as nat);
    assert(cap_max(64) == u64::MAX as nat);
    assert(cap_max(128) == u128::MAX as nat);
    assert(usize::MAX as nat == cap_max(usize::BITS as nat));
}

/// Zig-zag is undone exactly by its inverse.
pub proof fn lemma_unzigzag_zigzag(v: int)
    ensures
        unzigzag(zigzag(v)) == v,
{
}

/// Every magnitude is the zig-zag image of exactly one value.
pub proof fn lemma_zigzag_unzigzag(u: nat)
    ensures
        zigzag(unzigzag(u)) == u,
{
}

/// A signed width's representable range maps exactly onto the
/// magnitudes its capacity admits.
pub proof fn lemma_zigzag_range(v: int, bits: nat)
    requires
        bits >= 1,
    ensures
        in_range(v, bits, true) <==> zigzag(v) <= cap_max(bits),
{
    lemma_pow2_adds((bits - 1) as nat, 1);
    lemma2_to64();
    lemma_pow2_pos((bits - 1) as nat);
}

/// A magnitude the capacity admits decodes to a value the signed width
/// can represent.
pub proof fn lemma_unzigzag_range(u: nat, bits: nat)
    requires
        bits >= 1,
        u <= cap_max(bits),
    ensures
        in_range(unzigzag(u), bits, true),
{
    lemma_zigzag_unzigzag(u);
    lemma_zigzag_range(unzigzag(u), bits);
}

/// The `MIN` and `MAX` of the native signed width, in terms of the
/// native bit count.
pub proof fn lemma_native_signed_range()
    ensures
        isize::BITS == usize::BITS,
        isize::MAX as int == pow2((usize::BITS - 1) as nat) - 1,
        isize::MIN as int == -(pow2((usize::BITS - 1) as nat) as int),
{
    broadcast use vstd::layout::layout_of_primitives;

    vstd::layout::signed_int_min_max_values();
    lemma_pow2_pos((usize::BITS - 1) as nat);
}

/// How an unsigned width wraps a sum or difference that strays at most
/// one modulus out of range.
pub proof fn lemma_wrap_unsigned(d: int, bits: nat)
    requires
        -(pow2(bits) as int) < d < 2 * pow2(bits),
    ensures
        wrap_to_range(d, bits, false) == if d < 0 {
            d + pow2(bits)
        } else if d >= pow2(bits) {
            d - pow2(bits)
        } else {
            d
        },
{
    let m = pow2(bits) as int;
    lemma_pow2_pos(bits);
    if d < 0 {
        lemma_mod_add_multiples_vanish(d, m);
        lemma_small_mod((d + m) as nat, pow2(bits));
    } else if d >= m {
        lemma_mod_add_multiples_vanish(d - m, m);
        lemma_small_mod((d - m) as nat, pow2(bits));
    } else {
        lemma_small_mod(d as nat, pow2(bits));
    }
}

/// How a signed width wraps a sum or difference that strays at most
/// half a modulus out of range.
pub proof fn lemma_wrap_signed(d: int, bits: nat)
    requires
        bits >= 1,
        -(pow2(bits) as int) <= d < pow2(bits),
    ensures
        wrap_to_range(d, bits, true) == if d < -(pow2((bits - 1) as nat) as int) {
            d + pow2(bits)
        } else if d >= pow2((bits - 1) as nat) {
            d - pow2(bits)
        } else {
            d
        },
{
    let m = pow2(bits) as int;
    let h = pow2((bits - 1) as nat) as int;
    lemma_pow2_pos(bits);
    lemma_pow2_pos((bits - 1) as nat);
    lemma_pow2_adds((bits - 1) as nat, 1);
    lemma2_to64();
    if d < 0 {
        lemma_mod_add_multiples_vanish(d, m);
        lemma_small_mod((d + m) as nat, pow2(bits));
    } else {
        lemma_small_mod(d as nat, pow2(bits));
    }
}

/// Wrapping always lands in the width's representable range.
pub proof fn lemma_wrap_in_range(x: int, bits: nat, signed: bool)
    requires
        bits >= 1,
    ensures
        in_range(wrap_to_range(x, bits, signed), bits, signed),
{
    let m = pow2(bits) as int;
    lemma_pow2_pos(bits);
    lemma_pow2_pos((bits - 1) as nat);
    lemma_pow2_adds((bits - 1) as nat, 1);
    lemma2_to64();
    lemma_mod_bound(x, m);
}

/// Wrapping a value the width already represents changes nothing.
pub proof fn lemma_wrap_identity(x: int, bits: nat, signed: bool)
    requires
        bits >= 1,
        in_range(x, bits, signed),
    ensures
        wrap_to_range(x, bits, signed) == x,
{
    let m = pow2(bits) as int;
    lemma_pow2_pos(bits);
    lemma_pow2_pos((bits - 1) as nat);
    lemma_pow2_adds((bits - 1) as nat, 1);
    lemma2_to64();
    if x >= 0 {
        lemma_small_mod(x as nat, pow2(bits));
    } else {
        lemma_mod_add_multiples_vanish(x, m);
        lemma_small_mod((x + m) as nat, pow2(bits));
    }
}

/// A wrapped summand can be unwrapped: adding before or after reducing
/// gives the same wrapped sum.
pub proof fn lemma_wrap_add_wrap(a: int, x: int, bits: nat, signed: bool)
    requires
        bits >= 1,
    ensures
        wrap_to_range(a + wrap_to_range(x, bits, signed), bits, signed) == wrap_to_range(
            a + x,
            bits,
            signed,
        ),
{
    let m = pow2(bits) as int;
    lemma_pow2_pos(bits);
    let y = wrap_to_range(x, bits, signed);
    lemma_mod_twice(x, m);
    if y != x % m {
        lemma_mod_add_multiples_vanish(y, m);
    }
    assert(y % m == x % m);
    lemma_add_mod_noop(a, y, m);
    lemma_add_mod_noop(a, x, m);
}

/// Canonical zero: every width writes the value zero as exactly one
/// zero byte.
pub proof fn lemma_encode_zero()
    ensures
        encode_mag(0) == seq![0u8],
{
}

/// The one-byte threshold: magnitudes up to 127 take exactly one byte,
/// and from 128 up to `128 * 128 - 1` exactly two.
pub proof fn lemma_encode_threshold(u: nat)
    ensures
        u < 128 ==> encode_mag(u).len() == 1,
        128 <= u < 16384 ==> encode_mag(u).len() == 2,
{
    if 128 <= u < 16384 {
        assert(encode_mag(u / 128).len() == 1);
    }
}

/// Round trip: a magnitude the capacity admits decodes back to itself,
/// consuming exactly its own encoding and leaving whatever follows.
pub proof fn lemma_round_trip(u: nat, rest: Seq<u8>, max: nat)
    requires
        is_cap(max),
        u <= max,
    ensures
        spec_read(encode_mag(u) + rest, max) == Ok::<(nat, nat), VartyIntError>(
            (u, encode_mag(u).len()),
        ),
        encode_mag(u).len() >= 1,
{
    lemma2_to64();
    lemma_decode_encode(u, rest, max, 0, 0);
}

/// Signed round trip: every representable value of a signed width,
/// its minimum included, travels through zig-zag and back unchanged.
pub proof fn lemma_signed_round_trip(v: int, rest: Seq<u8>, bits: nat)
    requires
        1 <= bits <= 128,
        in_range(v, bits, true),
    ensures
        spec_read(encode_mag(zigzag(v)) + rest, cap_max(bits)) == Ok::<(nat, nat), VartyIntError>(
            (zigzag(v), encode_mag(zigzag(v)).len()),
        ),
        unzigzag(zigzag(v)) == v,
{
    assert(is_cap(cap_max(bits)));
    lemma_zigzag_range(v, bits);
    lemma_round_trip(zigzag(v), rest, cap_max(bits));
    lemma_unzigzag_zigzag(v);
}

/// Encoding is canonical: two magnitudes a width can carry never share
/// a byte sequence.
pub proof fn lemma_encode_injective(a: nat, b: nat, max: nat)
    requires
        is_cap(max),
        a <= max,
        b <= max,
        encode_mag(a) == encode_mag(b),
    ensures
        a == b,
{
    lemma_round_trip(a, Seq::<u8>::empty(), max);
    lemma_round_trip(b, Seq::<u8>::empty(), max);
}

/// An empty view reports `EmptyBuffer` for every capacity.
pub proof fn lemma_read_empty(max: nat)
    ensures
        spec_read(Seq::<u8>::empty(), max) == Err::<(nat, nat), VartyIntError>(
            VartyIntError::EmptyBuffer,
        ),
{
}

/// Truncation: a decoder fed a proper, non-empty prefix of an encoding
/// reports `NotEnoughBytes`.
pub proof fn lemma_truncation(u: nat, k: int, max: nat)
    requires
        is_cap(max),
        u <= max,
        0 < k < encode_mag(u).len(),
    ensures
        spec_read(encode_mag(u).take(k), max) == Err::<(nat, nat), VartyIntError>(
            VartyIntError::NotEnoughBytes,
        ),
{
    lemma2_to64();
    lemma_decode_prefix(u, k, max, 0, 0);
}

/// Width mismatch: a magnitude beyond the capacity is rejected with
/// `TooManyBytesForType`, whatever follows its encoding.
pub proof fn lemma_width_mismatch(u: nat, rest: Seq<u8>, max: nat)
    requires
        is_cap(max),
        u > max,
    ensures
        spec_read(encode_mag(u) + rest, max) == Err::<(nat, nat), VartyIntError>(
            VartyIntError::TooManyBytesForType,
        ),
{
    lemma2_to64();
    lemma_decode_too_big(u, rest, max, 0, 0);
}

} // verus!
