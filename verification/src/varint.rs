//! The generic numeric capability: one interface spanning every
//! supported fixed width, so sequence code can be written once.

use vstd::prelude::*;

verus! {

use crate::errors::VartyIntError;
use crate::signed::{
    read_i128, read_i16, read_i32, read_i64, read_i8, write_i128, write_i16, write_i32, write_i64,
    write_i8,
};
use crate::unsigned::{
    read_u128, read_u16, read_u32, read_u64, read_u8, write_u128, write_u16, write_u32, write_u64,
    write_u8,
};
use crate::wire::{
    cap_max, encode_mag, in_range, lemma_pow2_widths, lemma_width_caps, lemma_wrap_signed,
    lemma_wrap_unsigned, lemma_zigzag_unzigzag, mag_of, spec_read, unzigzag, val_of_mag,
    wrap_to_range, zigzag,
};

/// A fixed-width integer the codec can carry: the type knows its width,
/// its signedness, and how to move itself through the varint wire
/// format.  The delta helpers wrap around at the width's modulus, so a
/// difference that leaves the representable range still round-trips.
pub trait VarInt: Sized + Copy {
    /// The width of the type, in bits.
    spec fn bits() -> nat;

    /// Whether the type is signed, and so zig-zag encoded.
    spec fn signed() -> bool;

    /// The numeric value.
    spec fn as_int(self) -> int;

    /// The width is one the codec supports.
    proof fn lemma_width_supported()
        ensures
            8 <= Self::bits() <= 128,
    ;

    /// Every value of the type is representable in its width.
    proof fn lemma_varint_props(self)
        ensures
            in_range(self.as_int(), Self::bits(), Self::signed()),
    ;

    /// The numeric value determines the value.
    proof fn lemma_as_int_injective(a: Self, b: Self)
        requires
            a.as_int() == b.as_int(),
        ensures
            a == b,
    ;

    /// The type's zero, the delta codec's starting reference.
    fn zero() -> (r: Self)
        ensures
            r.as_int() == 0,
    ;

    /// Append this value's encoding to the buffer.
    fn write_varint(&self, buf: &mut Vec<u8>)
        ensures
            final(buf)@ == old(buf)@ + encode_mag(mag_of((*self).as_int(), Self::signed())),
    ;

    /// This value's encoding, in a fresh buffer.
    fn as_varint(&self) -> (r: Vec<u8>)
        ensures
            r@ == encode_mag(mag_of((*self).as_int(), Self::signed())),
    ;

    /// Read a value of this type from the front of the buffer.  On
    /// success the unread suffix of the buffer is returned beside it.
    fn from_varint(buf: &[u8]) -> (r: Result<(Self, &[u8]), VartyIntError>)
        ensures
            ({
                let sr = spec_read(buf@, cap_max(Self::bits()));
                match r {
                    Ok((v, rest)) => sr matches Ok((sv, sn)) && mag_of(
                        v.as_int(),
                        Self::signed(),
                    ) == sv && v.as_int() == val_of_mag(sv, Self::signed()) && rest@ == buf@.skip(
                        sn as int,
                    ),
                    Err(e) => sr == Err::<(nat, nat), VartyIntError>(e),
                }
            }),
    ;

    /// Read a value of this type from the front of the buffer.
    fn read_varint(buf: &[u8]) -> (r: Result<(Self, &[u8]), VartyIntError>)
        ensures
            ({
                let sr = spec_read(buf@, cap_max(Self::bits()));
                match r {
                    Ok((v, rest)) => sr matches Ok((sv, sn)) && mag_of(
                        v.as_int(),
                        Self::signed(),
                    ) == sv && v.as_int() == val_of_mag(sv, Self::signed()) && rest@ == buf@.skip(
                        sn as int,
                    ),
                    Err(e) => sr == Err::<(nat, nat), VartyIntError>(e),
                }
            }),
    {
        Self::from_varint(buf)
    }

    /// The difference `self - other`, wrapped at the width's modulus.
    fn delta_sub(self, other: Self) -> (r: Self)
        ensures
            r.as_int() == wrap_to_range(
                self.as_int() - other.as_int(),
                Self::bits(),
                Self::signed(),
            ),
    ;

    /// The sum `self + other`, wrapped at the width's modulus.
    fn delta_add(self, other: Self) -> (r: Self)
        ensures
            r.as_int() == wrap_to_range(
                self.as_int() + other.as_int(),
                Self::bits(),
                Self::signed(),
            ),
    ;
}

impl VarInt for u8 {
    open spec fn bits() -> nat {
        8
    }

    open spec fn signed() -> bool {
        false
    }

    open spec fn as_int(self) -> int {
        self as int
    }

    proof fn lemma_width_supported() {
    }

    proof fn lemma_varint_props(self) {
        lemma_pow2_widths();
    }

    proof fn lemma_as_int_injective(a: Self, b: Self) {
    }

    fn zero() -> (r: Self) {
        0
    }

    fn write_varint(&self, buf: &mut Vec<u8>) {
        write_u8(*self, buf)
    }

    fn as_varint(&self) -> (r: Vec<u8>) {
        let mut out: Vec<u8> = Vec::new();
        write_u8(*self, &mut out);
        proof {
            assert(out@ =~= encode_mag(mag_of((*self).as_int(), Self::signed())));
        }
        out
    }

    fn from_varint(buf: &[u8]) -> (r: Result<(Self, &[u8]), VartyIntError>) {
        proof {
            lemma_width_caps();
        }
        read_u8(buf)
    }

    fn delta_sub(self, other: Self) -> (r: Self) {
        proof {
            lemma_pow2_widths();
            lemma_wrap_unsigned(self as int - other as int, 8);
        }
        self.wrapping_sub(other)
    }

    fn delta_add(self, other: Self) -> (r: Self) {
        proof {
            lemma_pow2_widths();
            lemma_wrap_unsigned(self as int + other as int, 8);
        }
        self.wrapping_add(other)
    }
}

impl VarInt for u16 {
    open spec fn bits() -> nat {
        16
    }

    open spec fn signed() -> bool {
        false
    }

    open spec fn as_int(self) -> int {
        self as int
    }

    proof fn lemma_width_supported() {
    }

    proof fn lemma_varint_props(self) {
        lemma_pow2_widths();
    }

    proof fn lemma_as_int_injective(a: Self, b: Self) {
    }

    fn zero() -> (r: Self) {
        0
    }

    fn write_varint(&self, buf: &mut Vec<u8>) {
        write_u16(*self, buf)
    }

    fn as_varint(&self) -> (r: Vec<u8>) {
        let mut out: Vec<u8> = Vec::new();
        write_u16(*self, &mut out);
        proof {
            assert(out@ =~= encode_mag(mag_of((*self).as_int(), Self::signed())));
        }
        out
    }

    fn from_varint(buf: &[u8]) -> (r: Result<(Self, &[u8]), VartyIntError>) {
        proof {
            lemma_width_caps();
        }
        read_u16(buf)
    }

    fn delta_sub(self, other: Self) -> (r: Self) {
        proof {
            lemma_pow2_widths();
            lemma_wrap_unsigned(self as int - other as int, 16);
        }
        self.wrapping_sub(other)
    }

    fn delta_add(self, other: Self) -> (r: Self) {
        proof {
            lemma_pow2_widths();
            lemma_wrap_unsigned(self as int + other as int, 16);
        }
        self.wrapping_add(other)
    }
}

impl VarInt for u32 {
    open spec fn bits() -> nat {
        32
    }

    open spec fn signed() -> bool {
        false
    }

    open spec fn as_int(self) -> int {
        self as int
    }

    proof fn lemma_width_supported() {
    }

    proof fn lemma_varint_props(self) {
        lemma_pow2_widths();
    }

    proof fn lemma_as_int_injective(a: Self, b: Self) {
    }

    fn zero() -> (r: Self) {
        0
    }

    fn write_varint(&self, buf: &mut Vec<u8>) {
        write_u32(*self, buf)
    }

    fn as_varint(&self) -> (r: Vec<u8>) {
        let mut out: Vec<u8> = Vec::new();
        write_u32(*self, &mut out);
        proof {
            assert(out@ =~= encode_mag(mag_of((*self).as_int(), Self::signed())));
        }
        out
    }

    fn from_varint(buf: &[u8]) -> (r: Result<(Self, &[u8]), VartyIntError>) {
        proof {
            lemma_width_caps();
        }
        read_u32(buf)
    }

    fn delta_sub(self, other: Self) -> (r: Self) {
        proof {
            lemma_pow2_widths();
            lemma_wrap_unsigned(self as int - other as int, 32);
        }
        self.wrapping_sub(other)
    }

    fn delta_add(self, other: Self) -> (r: Self) {
        proof {
            lemma_pow2_widths();
            lemma_wrap_unsigned(self as int + other as int, 32);
        }
        self.wrapping_add(other)
    }
}

impl VarInt for u64 {
    open spec fn bits() -> nat {
        64
    }

    open spec fn signed() -> bool {
        false
    }

    open spec fn as_int(self) -> int {
        self as int
    }

    proof fn lemma_width_supported() {
    }

    proof fn lemma_varint_props(self) {
        lemma_pow2_widths();
    }

    proof fn lemma_as_int_injective(a: Self, b: Self) {
    }

    fn zero() -> (r: Self) {
        0
    }

    fn write_varint(&self, buf: &mut Vec<u8>) {
        write_u64(*self, buf)
    }

    fn as_varint(&self) -> (r: Vec<u8>) {
        let mut out: Vec<u8> = Vec::new();
        write_u64(*self, &mut out);
        proof {
            assert(out@ =~= encode_mag(mag_of((*self).as_int(), Self::signed())));
        }
        out
    }

    fn from_varint(buf: &[u8]) -> (r: Result<(Self, &[u8]), VartyIntError>) {
        proof {
            lemma_width_caps();
        }
        read_u64(buf)
    }

    fn delta_sub(self, other: Self) -> (r: Self) {
        proof {
            lemma_pow2_widths();
            lemma_wrap_unsigned(self as int - other as int, 64);
        }
        self.wrapping_sub(other)
    }

    fn delta_add(self, other: Self) -> (r: Self) {
        proof {
            lemma_pow2_widths();
            lemma_wrap_unsigned(self as int + other as int, 64);
        }
        self.wrapping_add(other)
    }
}

impl VarInt for u128 {
    open spec fn bits() -> nat {
        128
    }

    open spec fn signed() -> bool {
        false
    }

    open spec fn as_int(self) -> int {
        self as int
    }

    proof fn lemma_width_supported() {
    }

    proof fn lemma_varint_props(self) {
        lemma_pow2_widths();
    }

    proof fn lemma_as_int_injective(a: Self, b: Self) {
    }

    fn zero() -> (r: Self) {
        0
    }

    fn write_varint(&self, buf: &mut Vec<u8>) {
        write_u128(*self, buf)
    }

    fn as_varint(&self) -> (r: Vec<u8>) {
        let mut out: Vec<u8> = Vec::new();
        write_u128(*self, &mut out);
        proof {
            assert(out@ =~= encode_mag(mag_of((*self).as_int(), Self::signed())));
        }
        out
    }

    fn from_varint(buf: &[u8]) -> (r: Result<(Self, &[u8]), VartyIntError>) {
        proof {
            lemma_width_caps();
        }
        read_u128(buf)
    }

    fn delta_sub(self, other: Self) -> (r: Self) {
        proof {
            lemma_pow2_widths();
            lemma_wrap_unsigned(self as int - other as int, 128);
        }
        self.wrapping_sub(other)
    }

    fn delta_add(self, other: Self) -> (r: Self) {
        proof {
            lemma_pow2_widths();
            lemma_wrap_unsigned(self as int + other as int, 128);
        }
        self.wrapping_add(other)
    }
}

impl VarInt for i8 {
    open spec fn bits() -> nat {
        8
    }

    open spec fn signed() -> bool {
        true
    }

    open spec fn as_int(self) -> int {
        self as int
    }

    proof fn lemma_width_supported() {
    }

    proof fn lemma_varint_props(self) {
        lemma_pow2_widths();
    }

    proof fn lemma_as_int_injective(a: Self, b: Self) {
    }

    fn zero() -> (r: Self) {
        0
    }

    fn write_varint(&self, buf: &mut Vec<u8>) {
        write_i8(*self, buf)
    }

    fn as_varint(&self) -> (r: Vec<u8>) {
        let mut out: Vec<u8> = Vec::new();
        write_i8(*self, &mut out);
        proof {
            assert(out@ =~= encode_mag(mag_of((*self).as_int(), Self::signed())));
        }
        out
    }

    fn from_varint(buf: &[u8]) -> (r: Result<(Self, &[u8]), VartyIntError>) {
        proof {
            lemma_width_caps();
            assert forall|u: nat| #[trigger] zigzag(unzigzag(u)) == u by {
                lemma_zigzag_unzigzag(u);
            }
        }
        read_i8(buf)
    }

    fn delta_sub(self, other: Self) -> (r: Self) {
        proof {
            lemma_pow2_widths();
            lemma_wrap_signed(self as int - other as int, 8);
        }
        self.wrapping_sub(other)
    }

    fn delta_add(self, other: Self) -> (r: Self) {
        proof {
            lemma_pow2_widths();
            lemma_wrap_signed(self as int + other as int, 8);
        }
        self.wrapping_add(other)
    }
}

impl VarInt for i16 {
    open spec fn bits() -> nat {
        16
    }

    open spec fn signed() -> bool {
        true
    }

    open spec fn as_int(self) -> int {
        self as int
    }

    proof fn lemma_width_supported() {
    }

    proof fn lemma_varint_props(self) {
        lemma_pow2_widths();
    }

    proof fn lemma_as_int_injective(a: Self, b: Self) {
    }

    fn zero() -> (r: Self) {
        0
    }

    fn write_varint(&self, buf: &mut Vec<u8>) {
        write_i16(*self, buf)
    }

    fn as_varint(&self) -> (r: Vec<u8>) {
        let mut out: Vec<u8> = Vec::new();
        write_i16(*self, &mut out);
        proof {
            assert(out@ =~= encode_mag(mag_of((*self).as_int(), Self::signed())));
        }
        out
    }

    fn from_varint(buf: &[u8]) -> (r: Result<(Self, &[u8]), VartyIntError>) {
        proof {
            lemma_width_caps();
            assert forall|u: nat| #[trigger] zigzag(unzigzag(u)) == u by {
                lemma_zigzag_unzigzag(u);
            }
        }
        read_i16(buf)
    }

    fn delta_sub(self, other: Self) -> (r: Self) {
        proof {
            lemma_pow2_widths();
            lemma_wrap_signed(self as int - other as int, 16);
        }
        self.wrapping_sub(other)
    }

    fn delta_add(self, other: Self) -> (r: Self) {
        proof {
            lemma_pow2_widths();
            lemma_wrap_signed(self as int + other as int, 16);
        }
        self.wrapping_add(other)
    }
}

impl VarInt for i32 {
    open spec fn bits() -> nat {
        32
    }

    open spec fn signed() -> bool {
        true
    }

    open spec fn as_int(self) -> int {
        self as int
    }

    proof fn lemma_width_supported() {
    }

    proof fn lemma_varint_props(self) {
        lemma_pow2_widths();
    }

    proof fn lemma_as_int_injective(a: Self, b: Self) {
    }

    fn zero() -> (r: Self) {
        0
    }

    fn write_varint(&self, buf: &mut Vec<u8>) {
        write_i32(*self, buf)
    }

    fn as_varint(&self) -> (r: Vec<u8>) {
        let mut out: Vec<u8> = Vec::new();
        write_i32(*self, &mut out);
        proof {
            assert(out@ =~= encode_mag(mag_of((*self).as_int(), Self::signed())));
        }
        out
    }

    fn from_varint(buf: &[u8]) -> (r: Result<(Self, &[u8]), VartyIntError>) {
        proof {
            lemma_width_caps();
            assert forall|u: nat| #[trigger] zigzag(unzigzag(u)) == u by {
                lemma_zigzag_unzigzag(u);
            }
        }
        read_i32(buf)
    }

    fn delta_sub(self, other: Self) -> (r: Self) {
        proof {
            lemma_pow2_widths();
            lemma_wrap_signed(self as int - other as int, 32);
        }
        self.wrapping_sub(other)
    }

    fn delta_add(self, other: Self) -> (r: Self) {
        proof {
            lemma_pow2_widths();
            lemma_wrap_signed(self as int + other as int, 32);
        }
        self.wrapping_add(other)
    }
}

impl VarInt for i64 {
    open spec fn bits() -> nat {
        64
    }

    open spec fn signed() -> bool {
        true
    }

    open spec fn as_int(self) -> int {
        self as int
    }

    proof fn lemma_width_supported() {
    }

    proof fn lemma_varint_props(self) {
        lemma_pow2_widths();
    }

    proof fn lemma_as_int_injective(a: Self, b: Self) {
    }

    fn zero() -> (r: Self) {
        0
    }

    fn write_varint(&self, buf: &mut Vec<u8>) {
        write_i64(*self, buf)
    }

    fn as_varint(&self) -> (r: Vec<u8>) {
        let mut out: Vec<u8> = Vec::new();
        write_i64(*self, &mut out);
        proof {
            assert(out@ =~= encode_mag(mag_of((*self).as_int(), Self::signed())));
        }
        out
    }

    fn from_varint(buf: &[u8]) -> (r: Result<(Self, &[u8]), VartyIntError>) {
        proof {
            lemma_width_caps();
            assert forall|u: nat| #[trigger] zigzag(unzigzag(u)) == u by {
                lemma_zigzag_unzigzag(u);
            }
        }
        read_i64(buf)
    }

    fn delta_sub(self, other: Self) -> (r: Self) {
        proof {
            lemma_pow2_widths();
            lemma_wrap_signed(self as int - other as int, 64);
        }
        self.wrapping_sub(other)
    }

    fn delta_add(self, other: Self) -> (r: Self) {
        proof {
            lemma_pow2_widths();
            lemma_wrap_signed(self as int + other as int, 64);
        }
        self.wrapping_add(other)
    }
}

impl VarInt for i128 {
    open spec fn bits() -> nat {
        128
    }

    open spec fn signed() -> bool {
        true
    }

    open spec fn as_int(self) -> int {
        self as int
    }

    proof fn lemma_width_supported() {
    }

    proof fn lemma_varint_props(self) {
        lemma_pow2_widths();
    }

    proof fn lemma_as_int_injective(a: Self, b: Self) {
    }

    fn zero() -> (r: Self) {
        0
    }

    fn write_varint(&self, buf: &mut Vec<u8>) {
        write_i128(*self, buf)
    }

    fn as_varint(&self) -> (r: Vec<u8>) {
        let mut out: Vec<u8> = Vec::new();
        write_i128(*self, &mut out);
        proof {
            assert(out@ =~= encode_mag(mag_of((*self).as_int(), Self::signed())));
        }
        out
    }

    fn from_varint(buf: &[u8]) -> (r: Result<(Self, &[u8]), VartyIntError>) {
        proof {
            lemma_width_caps();
            assert forall|u: nat| #[trigger] zigzag(unzigzag(u)) == u by {
                lemma_zigzag_unzigzag(u);
            }
        }
        read_i128(buf)
    }

    fn delta_sub(self, other: Self) -> (r: Self) {
        proof {
            lemma_pow2_widths();
            lemma_wrap_signed(self as int - other as int, 128);
        }
        self.wrapping_sub(other)
    }

    fn delta_add(self, other: Self) -> (r: Self) {
        proof {
            lemma_pow2_widths();
            lemma_wrap_signed(self as int + other as int, 128);
        }
        self.wrapping_add(other)
    }
}

} // verus!
