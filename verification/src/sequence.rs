//! The sequence codec: plain and delta-encoded repetition of the
//! single-value codec over ordered collections.
//!
//! Reading produces every item the byte stream yields, in order: a clean
//! end of input at an element boundary ends production without an error,
//! while a decode failure is surfaced as one final failed item.  The
//! delta variants carry a running reference that starts at zero; the
//! difference arithmetic wraps at the width's modulus, so any sequence of
//! values round-trips, decreasing and unsigned ones included.

use vstd::prelude::*;

verus! {

use crate::errors::VartyIntError;
use crate::varint::VarInt;
use crate::wire::{
    cap_max, encode_mag, in_range, is_cap, lemma_decode_bounds, lemma_pow2_widths,
    lemma_round_trip, lemma_unzigzag_zigzag, lemma_wrap_add_wrap, lemma_wrap_identity,
    lemma_wrap_in_range, lemma_zigzag_range, mag_of, spec_read, val_of_mag, wrap_to_range,
};

/// The concatenated encodings of a list of magnitudes.
pub open spec fn encode_list(mags: Seq<nat>) -> Seq<u8>
    decreases mags.len(),
{
    if mags.len() == 0 {
        Seq::empty()
    } else {
        encode_mag(mags[0]) + encode_list(mags.skip(1))
    }
}

/// The wire magnitudes of a sequence of values of one width.
pub open spec fn mags_of<T: VarInt>(vals: Seq<T>) -> Seq<nat> {
    vals.map(|i: int, v: T| mag_of(v.as_int(), T::signed()))
}

/// The wire magnitudes of a sequence's successive differences, with the
/// running reference starting at `prev`.
pub open spec fn delta_mags<T: VarInt>(vals: Seq<T>, prev: int) -> Seq<nat>
    decreases vals.len(),
{
    if vals.len() == 0 {
        Seq::empty()
    } else {
        seq![
            mag_of(
                wrap_to_range(vals[0].as_int() - prev, T::bits(), T::signed()),
                T::signed(),
            ),
        ] + delta_mags(vals.skip(1), vals[0].as_int())
    }
}

/// Every item a decoder yields from `s` under capacity `max`: the
/// decoded magnitudes in order, ended either by the view running out at
/// an element boundary (no item) or by one failed item.
pub open spec fn spec_read_many(s: Seq<u8>, max: nat) -> Seq<Result<nat, VartyIntError>>
    decreases s.len(),
    when is_cap(max)
    via spec_read_many_decreases
{
    if s.len() == 0 {
        Seq::empty()
    } else {
        match spec_read(s, max) {
            Ok((u, n)) => seq![Ok(u)] + spec_read_many(s.skip(n as int), max),
            Err(e) => seq![Err(e)],
        }
    }
}

#[via_fn]
proof fn spec_read_many_decreases(s: Seq<u8>, max: nat) {
    lemma_pow2_widths();
    lemma_decode_bounds(s, max, 0, 0);
}

/// Every item a delta decoder yields from `s` for a width of `bits`
/// bits of the given signedness, with the running accumulator starting
/// at `prev`: each decoded difference is added to the accumulator, with
/// wrap-around at the width's modulus, and the accumulator is the item.
pub open spec fn spec_read_many_delta(s: Seq<u8>, bits: nat, signed: bool, prev: int) -> Seq<
    Result<int, VartyIntError>,
>
    decreases s.len(),
    when 1 <= bits <= 128
    via spec_read_many_delta_decreases
{
    if s.len() == 0 {
        Seq::empty()
    } else {
        match spec_read(s, cap_max(bits)) {
            Ok((u, n)) => {
                let v = wrap_to_range(prev + val_of_mag(u, signed), bits, signed);
                seq![Ok(v)] + spec_read_many_delta(s.skip(n as int), bits, signed, v)
            },
            Err(e) => seq![Err(e)],
        }
    }
}

#[via_fn]
proof fn spec_read_many_delta_decreases(s: Seq<u8>, bits: nat, signed: bool, prev: int) {
    lemma_pow2_widths();
    assert(is_cap(cap_max(bits)));
    lemma_decode_bounds(s, cap_max(bits), 0, 0);
}

/// How a vector of decoded values corresponds to the decoded
/// magnitudes: pairwise, value for magnitude and error for error.
pub open spec fn items_match<T: VarInt>(
    items: Seq<Result<T, VartyIntError>>,
    mags: Seq<Result<nat, VartyIntError>>,
) -> bool {
    &&& items.len() == mags.len()
    &&& forall|i: int|
        0 <= i < items.len() ==> match (#[trigger] items[i], mags[i]) {
            (Ok(v), Ok(u)) => mag_of(v.as_int(), T::signed()) == u && v.as_int() == val_of_mag(
                u,
                T::signed(),
            ),
            (Err(e1), Err(e2)) => e1 == e2,
            _ => false,
        }
}

/// How a vector of reconstructed values corresponds to the accumulator
/// values the delta decoder yields.
pub open spec fn delta_items_match<T: VarInt>(
    items: Seq<Result<T, VartyIntError>>,
    vals: Seq<Result<int, VartyIntError>>,
) -> bool {
    &&& items.len() == vals.len()
    &&& forall|i: int|
        0 <= i < items.len() ==> match (#[trigger] items[i], vals[i]) {
            (Ok(v), Ok(x)) => v.as_int() == x,
            (Err(e1), Err(e2)) => e1 == e2,
            _ => false,
        }
}

/// Write each integer of the list to a fresh buffer, one after the
/// other, and return the buffer.
pub fn write_many_new<T: VarInt>(nums: &[T]) -> (r: Vec<u8>)
    ensures
        r@ == encode_list(mags_of::<T>(nums@)),
{
    let mut buf: Vec<u8> = Vec::new();
    write_many(nums, &mut buf);
    proof {
        assert(buf@ =~= encode_list(mags_of::<T>(nums@)));
    }
    buf
}

/// Write each integer of the list to this buffer, one after the other.
pub fn write_many<T: VarInt>(nums: &[T], buf: &mut Vec<u8>)
    ensures
        final(buf)@ == old(buf)@ + encode_list(mags_of::<T>(nums@)),
{
    let n = nums.len();
    let mut k: usize = 0;
    proof {
        assert(nums@.skip(0) =~= nums@);
    }
    while k < n
        invariant
            n == nums@.len(),
            k <= n,
            buf@ + encode_list(mags_of::<T>(nums@.skip(k as int))) == old(buf)@ + encode_list(
                mags_of::<T>(nums@),
            ),
        decreases n - k,
    {
        let ghost pre = buf@;
        let v: T = nums[k];
        v.write_varint(buf);
        k = k + 1;
        proof {
            let tail = nums@.skip(k - 1);
            assert(mags_of::<T>(tail).skip(1) =~= mags_of::<T>(nums@.skip(k as int)));
            assert(mags_of::<T>(tail)[0] == mag_of(v.as_int(), T::signed()));
            assert(buf@ + encode_list(mags_of::<T>(nums@.skip(k as int))) =~= pre + encode_list(
                mags_of::<T>(tail),
            ));
        }
    }
    proof {
        assert(mags_of::<T>(nums@.skip(n as int)) =~= Seq::<nat>::empty());
        assert(buf@ =~= buf@ + encode_list(mags_of::<T>(nums@.skip(n as int))));
    }
}

/// Read integers from this list of bytes, one after the other, until
/// the bytes run out or an element fails to decode; a failure is the
/// last item produced.
pub fn read_many<T: VarInt>(buf: &[u8]) -> (r: Vec<Result<T, VartyIntError>>)
    ensures
        items_match::<T>(r@, spec_read_many(buf@, cap_max(T::bits()))),
{
    proof {
        T::lemma_width_supported();
        assert(is_cap(cap_max(T::bits())));
    }
    let ghost max = cap_max(T::bits());
    let mut out: Vec<Result<T, VartyIntError>> = Vec::new();
    let ghost mut done: Seq<Result<nat, VartyIntError>> = Seq::empty();
    let mut cur: &[u8] = buf;
    proof {
        assert(done + spec_read_many(cur@, max) =~= spec_read_many(buf@, max));
    }
    loop
        invariant
            is_cap(max),
            max == cap_max(T::bits()),
            items_match::<T>(out@, done),
            spec_read_many(buf@, max) == done + spec_read_many(cur@, max),
        decreases cur@.len(),
    {
        if cur.len() == 0 {
            proof {
                assert(spec_read_many(cur@, max) =~= Seq::<Result<nat, VartyIntError>>::empty());
                assert(done =~= done + spec_read_many(cur@, max));
            }
            return out;
        }
        let ghost pre = cur@;
        match T::from_varint(cur) {
            Ok((num, rest)) => {
                proof {
                    lemma_pow2_widths();
                    lemma_decode_bounds(pre, max, 0, 0);
                }
                out.push(Ok(num));
                cur = rest;
                proof {
                    let u = spec_read(pre, max)->Ok_0.0;
                    done = done.push(Ok(u));
                    assert(spec_read_many(pre, max) == seq![Ok::<nat, VartyIntError>(u)]
                        + spec_read_many(cur@, max));
                    assert(spec_read_many(buf@, max) =~= done + spec_read_many(cur@, max));
                }
            },
            Err(e) => {
                proof {
                    done = done.push(Err(e));
                    assert(spec_read_many(pre, max) =~= seq![Err::<nat, VartyIntError>(e)]);
                    assert(spec_read_many(buf@, max) =~= done);
                }
                out.push(Err(e));
                return out;
            },
        }
    }
}

/// Write the successive differences of the list to a fresh buffer and
/// return it.  The running reference starts at zero.
pub fn write_many_delta_new<T: VarInt>(nums: &[T]) -> (r: Vec<u8>)
    ensures
        r@ == encode_list(delta_mags::<T>(nums@, 0)),
{
    let mut buf: Vec<u8> = Vec::new();
    write_many_delta(nums, &mut buf);
    proof {
        assert(buf@ =~= encode_list(delta_mags::<T>(nums@, 0)));
    }
    buf
}

/// Write the successive differences of the list to this buffer: each
/// element is encoded as its wrapped difference from the one before it,
/// the first from zero.  Very compact when many values are close
/// together.
pub fn write_many_delta<T: VarInt>(nums: &[T], buf: &mut Vec<u8>)
    ensures
        final(buf)@ == old(buf)@ + encode_list(delta_mags::<T>(nums@, 0)),
{
    let n = nums.len();
    let mut last: T = T::zero();
    let mut k: usize = 0;
    proof {
        assert(nums@.skip(0) =~= nums@);
    }
    while k < n
        invariant
            n == nums@.len(),
            k <= n,
            buf@ + encode_list(delta_mags::<T>(nums@.skip(k as int), last.as_int())) == old(
                buf,
            )@ + encode_list(delta_mags::<T>(nums@, 0)),
        decreases n - k,
    {
        let ghost pre = buf@;
        let ghost prev = last.as_int();
        let v: T = nums[k];
        let d: T = v.delta_sub(last);
        d.write_varint(buf);
        last = v;
        k = k + 1;
        proof {
            let tail = nums@.skip(k - 1);
            assert(tail[0] == v);
            assert(tail.skip(1) =~= nums@.skip(k as int));
            assert(delta_mags::<T>(tail, prev) == seq![mag_of(d.as_int(), T::signed())]
                + delta_mags::<T>(nums@.skip(k as int), v.as_int()));
            assert(delta_mags::<T>(tail, prev)[0] == mag_of(d.as_int(), T::signed()));
            assert(delta_mags::<T>(tail, prev).skip(1) =~= delta_mags::<T>(
                nums@.skip(k as int),
                v.as_int(),
            ));
            assert(buf@ + encode_list(delta_mags::<T>(nums@.skip(k as int), last.as_int())) =~= pre
                + encode_list(delta_mags::<T>(tail, prev)));
        }
    }
    proof {
        assert(delta_mags::<T>(nums@.skip(n as int), last.as_int()) =~= Seq::<nat>::empty());
        assert(buf@ =~= buf@ + encode_list(delta_mags::<T>(nums@.skip(n as int), last.as_int())));
    }
}

/// Read integers from this list of bytes, where each is stored as an
/// offset from the one before it; the reconstructed running totals are
/// produced, until the bytes run out or an element fails to decode.
pub fn read_many_delta<T: VarInt>(buf: &[u8]) -> (r: Vec<Result<T, VartyIntError>>)
    ensures
        delta_items_match::<T>(r@, spec_read_many_delta(buf@, T::bits(), T::signed(), 0)),
{
    proof {
        T::lemma_width_supported();
        assert(is_cap(cap_max(T::bits())));
    }
    let ghost bits = T::bits();
    let ghost signed = T::signed();
    let mut out: Vec<Result<T, VartyIntError>> = Vec::new();
    let ghost mut done: Seq<Result<int, VartyIntError>> = Seq::empty();
    let mut last: T = T::zero();
    let mut cur: &[u8] = buf;
    proof {
        assert(done + spec_read_many_delta(cur@, bits, signed, last.as_int())
            =~= spec_read_many_delta(buf@, bits, signed, 0));
    }
    loop
        invariant
            bits == T::bits(),
            signed == T::signed(),
            8 <= bits <= 128,
            is_cap(cap_max(bits)),
            delta_items_match::<T>(out@, done),
            spec_read_many_delta(buf@, bits, signed, 0) == done + spec_read_many_delta(
                cur@,
                bits,
                signed,
                last.as_int(),
            ),
        decreases cur@.len(),
    {
        if cur.len() == 0 {
            proof {
                assert(spec_read_many_delta(cur@, bits, signed, last.as_int()) =~= Seq::<
                    Result<int, VartyIntError>,
                >::empty());
                assert(done =~= done + spec_read_many_delta(cur@, bits, signed, last.as_int()));
            }
            return out;
        }
        let ghost pre = cur@;
        let ghost prev = last.as_int();
        match T::from_varint(cur) {
            Ok((num, rest)) => {
                proof {
                    lemma_pow2_widths();
                    lemma_decode_bounds(pre, cap_max(bits), 0, 0);
                }
                let next = last.delta_add(num);
                out.push(Ok(next));
                last = next;
                cur = rest;
                proof {
                    done = done.push(Ok(next.as_int()));
                    assert(spec_read_many_delta(pre, bits, signed, prev) == seq![
                        Ok::<int, VartyIntError>(next.as_int()),
                    ] + spec_read_many_delta(cur@, bits, signed, next.as_int()));
                    assert(spec_read_many_delta(buf@, bits, signed, 0) =~= done
                        + spec_read_many_delta(cur@, bits, signed, last.as_int()));
                }
            },
            Err(e) => {
                proof {
                    done = done.push(Err(e));
                    assert(spec_read_many_delta(pre, bits, signed, prev) =~= seq![
                        Err::<int, VartyIntError>(e),
                    ]);
                    assert(spec_read_many_delta(buf@, bits, signed, 0) =~= done);
                }
                out.push(Err(e));
                return out;
            },
        }
    }
}

/// A failed item can only be the last one a delta decoder produces:
/// everything before it decoded cleanly.
pub proof fn lemma_delta_err_is_last(s: Seq<u8>, bits: nat, signed: bool, prev: int)
    requires
        1 <= bits <= 128,
    ensures
        forall|i: int|
            0 <= i < spec_read_many_delta(s, bits, signed, prev).len() - 1 ==> (
            #[trigger] spec_read_many_delta(s, bits, signed, prev)[i]) is Ok,
    decreases s.len(),
{
    let items = spec_read_many_delta(s, bits, signed, prev);
    if s.len() != 0 {
        match spec_read(s, cap_max(bits)) {
            Ok((u, n)) => {
                let v = wrap_to_range(prev + val_of_mag(u, signed), bits, signed);
                lemma_pow2_widths();
                assert(is_cap(cap_max(bits)));
                lemma_decode_bounds(s, cap_max(bits), 0, 0);
                let tail = spec_read_many_delta(s.skip(n as int), bits, signed, v);
                lemma_delta_err_is_last(s.skip(n as int), bits, signed, v);
                assert forall|i: int| 0 <= i < items.len() - 1 implies (#[trigger] items[i]) is Ok by {
                    if i > 0 {
                        assert(items[i] == tail[i - 1]);
                    }
                }
            },
            Err(e) => {},
        }
    }
}

/// Read a delta-encoded list of bytes whole: the reconstructed values
/// in a fresh vector, or the error of the first element that failed to
/// decode.
pub fn read_many_delta_new<T: VarInt>(buf: &[u8]) -> (r: Result<Vec<T>, VartyIntError>)
    ensures
        ({
            let items = spec_read_many_delta(buf@, T::bits(), T::signed(), 0);
            match r {
                Ok(vs) => vs@.len() == items.len() && forall|i: int|
                    0 <= i < items.len() ==> ((#[trigger] items[i]) matches Ok(x)
                        && vs@[i].as_int() == x),
                Err(e) => items.len() >= 1 && items.last() == Err::<int, VartyIntError>(e)
                    && forall|i: int| 0 <= i < items.len() - 1 ==> (#[trigger] items[i]) is Ok,
            }
        }),
{
    proof {
        T::lemma_width_supported();
    }
    let ghost sitems = spec_read_many_delta(buf@, T::bits(), T::signed(), 0);
    let items = read_many_delta::<T>(buf);
    let n = items.len();
    let mut vs: Vec<T> = Vec::new();
    let mut k: usize = 0;
    while k < n
        invariant
            n == items@.len(),
            delta_items_match::<T>(items@, sitems),
            sitems == spec_read_many_delta(buf@, T::bits(), T::signed(), 0),
            8 <= T::bits() <= 128,
            k <= n,
            vs@.len() == k,
            forall|i: int|
                0 <= i < k ==> (#[trigger] sitems[i]) is Ok && vs@[i].as_int() == sitems[i]->Ok_0,
        decreases n - k,
    {
        match items[k] {
            Ok(v) => {
                vs.push(v);
            },
            Err(e) => {
                proof {
                    lemma_delta_err_is_last(buf@, T::bits(), T::signed(), 0);
                }
                return Err(e);
            },
        }
        k = k + 1;
    }
    Ok(vs)
}

/// The items a list of values of one width maps to when it round-trips
/// through the delta codec: each value, decoded cleanly.
pub open spec fn ok_items<T: VarInt>(vals: Seq<T>) -> Seq<Result<int, VartyIntError>> {
    vals.map(|i: int, v: T| Ok(v.as_int()))
}

proof fn lemma_delta_round_trip_rec<T: VarInt>(vals: Seq<T>, prev: int)
    requires
        in_range(prev, T::bits(), T::signed()),
    ensures
        spec_read_many_delta(
            encode_list(delta_mags::<T>(vals, prev)),
            T::bits(),
            T::signed(),
            prev,
        ) == ok_items::<T>(vals),
    decreases vals.len(),
{
    T::lemma_width_supported();
    let bits = T::bits();
    let signed = T::signed();
    let cap = cap_max(bits);
    assert(is_cap(cap));
    lemma_pow2_widths();
    if vals.len() == 0 {
        assert(delta_mags::<T>(vals, prev) =~= Seq::<nat>::empty());
        assert(encode_list(delta_mags::<T>(vals, prev)) =~= Seq::<u8>::empty());
        assert(spec_read_many_delta(encode_list(delta_mags::<T>(vals, prev)), bits, signed, prev)
            =~= ok_items::<T>(vals));
    } else {
        let v0 = vals[0];
        v0.lemma_varint_props();
        let diff = wrap_to_range(v0.as_int() - prev, bits, signed);
        lemma_wrap_in_range(v0.as_int() - prev, bits, signed);
        let dm = mag_of(diff, signed);
        if signed {
            lemma_zigzag_range(diff, bits);
            lemma_unzigzag_zigzag(diff);
        }
        assert(dm <= cap);
        assert(val_of_mag(dm, signed) == diff);
        let mags = delta_mags::<T>(vals, prev);
        let tail_mags = delta_mags::<T>(vals.skip(1), v0.as_int());
        assert(mags[0] == dm);
        assert(mags.skip(1) =~= tail_mags);
        let rest = encode_list(tail_mags);
        let bytes = encode_list(mags);
        assert(bytes == encode_mag(dm) + rest);
        lemma_round_trip(dm, rest, cap);
        assert(bytes.skip(encode_mag(dm).len() as int) =~= rest);
        lemma_wrap_add_wrap(prev, v0.as_int() - prev, bits, signed);
        lemma_wrap_identity(v0.as_int(), bits, signed);
        assert(wrap_to_range(prev + val_of_mag(dm, signed), bits, signed) == v0.as_int());
        lemma_delta_round_trip_rec::<T>(vals.skip(1), v0.as_int());
        assert(spec_read_many_delta(bytes, bits, signed, prev) == seq![
            Ok::<int, VartyIntError>(v0.as_int()),
        ] + ok_items::<T>(vals.skip(1)));
        assert(ok_items::<T>(vals) =~= seq![Ok::<int, VartyIntError>(v0.as_int())] + ok_items::<
            T,
        >(vals.skip(1)));
    }
}

/// Delta round trip: for any list of values — decreasing, non-monotonic
/// and unsigned lists included — reading back what the delta writer
/// produced yields exactly the values that were written, each as a
/// clean item.
pub proof fn lemma_delta_round_trip<T: VarInt>(vals: Seq<T>)
    ensures
        spec_read_many_delta(encode_list(delta_mags::<T>(vals, 0)), T::bits(), T::signed(), 0)
            == ok_items::<T>(vals),
{
    T::lemma_width_supported();
    lemma_pow2_widths();
    vstd::arithmetic::power2::lemma_pow2_pos((T::bits() - 1) as nat);
    vstd::arithmetic::power2::lemma_pow2_pos(T::bits());
    lemma_delta_round_trip_rec::<T>(vals, 0);
}

} // verus!
