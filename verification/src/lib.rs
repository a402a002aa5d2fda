//! Read and write varints (variable-length integers) to and from bytes.
//!
//! A varint stores an integer in base-128 groups, least significant first,
//! with the high bit of every byte but the last set as a continuation mark.
//! Small values take one byte; larger ones grow as needed.  Signed values
//! are zig-zag mapped first, so small magnitudes of either sign stay short.
//!
//! Writing appends to a caller-owned `Vec<u8>`; reading takes a byte slice
//! and, on success, returns the value together with the unread suffix, so
//! numbers can be popped off a buffer one after the other.  Sequences can
//! also be written element by element, plainly or as successive
//! differences from a running reference that starts at zero.

#![allow(unused_imports)]

use vstd::prelude::*;

mod errors;
mod sequence;
mod signed;
mod unsigned;
mod varint;
mod wire;

pub use crate::errors::VartyIntError;
pub use crate::sequence::{
    delta_items_match, delta_mags, encode_list, items_match, lemma_delta_err_is_last,
    lemma_delta_round_trip, mags_of, ok_items, read_many, read_many_delta, read_many_delta_new,
    spec_read_many, spec_read_many_delta, write_many, write_many_delta, write_many_delta_new,
    write_many_new,
};
pub use crate::signed::{
    read_i128, read_i16, read_i32, read_i64, read_i8, read_isize, write_i128, write_i16,
    write_i32, write_i64, write_i8, write_isize,
};
pub use crate::unsigned::{
    read_u128, read_u16, read_u32, read_u64, read_u8, read_usize, write_u128, write_u16,
    write_u32, write_u64, write_u8, write_usize,
};
pub use crate::varint::VarInt;
pub use crate::wire::{
    cap_max, decode_rec, encode_mag, in_range, is_cap, lemma_encode_injective,
    lemma_encode_threshold, lemma_encode_zero, lemma_read_empty, lemma_round_trip,
    lemma_signed_round_trip, lemma_truncation,
    lemma_width_mismatch, mag_of, spec_read, unzigzag, val_of_mag, wrap_to_range, zigzag,
};
