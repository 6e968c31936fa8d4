//! Tools for the integers of EBML: variable-length integers ("vints"), which
//! carry tag ids and sizes, and big-endian integers of one to eight bytes, which
//! carry tag data.
use vstd::prelude::*;
use vstd::arithmetic::power2::pow2;
use vstd::arithmetic::power2::lemma2_to64;
use vstd::arithmetic::power2::lemma2_to64_rest;
use vstd::slice::slice_to_vec;
use crate::error::ToolError;

verus! {

/// 256 to the power `n`.
pub open spec fn pow256(n: nat) -> nat
    decreases n,
{
    if n == 0 {
        1
    } else {
        256 * pow256((n - 1) as nat)
    }
}

/// The number that `bytes` spell in big-endian order. The empty sequence spells 0.
pub open spec fn be_value(bytes: Seq<u8>) -> nat
    decreases bytes.len(),
{
    if bytes.len() == 0 {
        0
    } else {
        be_value(bytes.drop_last()) * 256 + bytes.last() as nat
    }
}

/// The `width` low-order bytes of `value`, in big-endian order.
pub open spec fn be_bytes(value: nat, width: nat) -> Seq<u8>
    decreases width,
{
    if width == 0 {
        Seq::empty()
    } else {
        be_bytes(value / 256, (width - 1) as nat).push((value % 256) as u8)
    }
}

/// The number that `bytes` spell as a two's complement integer in big-endian
/// order: the high bit of the first byte is the sign.
pub open spec fn be_signed_value(bytes: Seq<u8>) -> int {
    if bytes.len() > 0 && bytes[0] >= 128 {
        be_value(bytes) - pow256(bytes.len())
    } else {
        be_value(bytes) as int
    }
}

/// The width in bytes that the first byte of a vint announces: one more than
/// the number of zero bits before its first one bit. A zero byte announces 9,
/// which no vint has.
pub open spec fn vint_width(first: u8) -> nat {
    if first >= 0x80 {
        1
    } else if first >= 0x40 {
        2
    } else if first >= 0x20 {
        3
    } else if first >= 0x10 {
        4
    } else if first >= 0x08 {
        5
    } else if first >= 0x04 {
        6
    } else if first >= 0x02 {
        7
    } else if first >= 0x01 {
        8
    } else {
        9
    }
}

/// The width marker of a vint of `width` bytes, read as a number: the bit just
/// above the `7 * width` bits of payload. It is also the number of values that
/// such a vint can carry.
pub open spec fn vint_marker(width: nat) -> nat {
    pow2(7 * width)
}

/// The least width, from 1 to 8, whose vint can carry `value`; 9 where none can.
pub open spec fn min_vint_width(value: nat) -> nat {
    if value < vint_marker(1) {
        1
    } else if value < vint_marker(2) {
        2
    } else if value < vint_marker(3) {
        3
    } else if value < vint_marker(4) {
        4
    } else if value < vint_marker(5) {
        5
    } else if value < vint_marker(6) {
        6
    } else if value < vint_marker(7) {
        7
    } else if value < vint_marker(8) {
        8
    } else {
        9
    }
}

/// The vint of `width` bytes that carries `value`: the payload in big-endian
/// order, with the width marker set above it.
pub open spec fn encode_unsigned(value: nat, width: nat) -> Seq<u8> {
    be_bytes(value + vint_marker(width), width)
}

/// What reading a vint from the front of `buffer` gives: nothing while the
/// buffer is shorter than the width that its first byte announces, an error
/// where that byte is zero, and else the payload with the width.
pub open spec fn decode_unsigned(buffer: Seq<u8>) -> Result<Option<(u64, usize)>, ToolError> {
    if buffer.len() == 0 {
        Ok(None)
    } else if buffer[0] == 0 {
        Err(ToolError::ReadVintOverflow)
    } else {
        let width = vint_width(buffer[0]);
        if width > buffer.len() {
            Ok(None)
        } else {
            Ok(
                Some(
                    (
                        (be_value(buffer.subrange(0, width as int)) - vint_marker(width)) as u64,
                        width as usize,
                    ),
                ),
            )
        }
    }
}

/// Whether a signed vint of `width` bytes can carry `value`.
pub open spec fn fits_signed_vint(value: int, width: nat) -> bool {
    -(vint_marker(width) / 2) <= value < vint_marker(width) / 2
}

/// The least width, from 1 to 8, whose signed vint can carry `value`; 9 where
/// none can.
pub open spec fn min_signed_vint_width(value: int) -> nat {
    if fits_signed_vint(value, 1) {
        1
    } else if fits_signed_vint(value, 2) {
        2
    } else if fits_signed_vint(value, 3) {
        3
    } else if fits_signed_vint(value, 4) {
        4
    } else if fits_signed_vint(value, 5) {
        5
    } else if fits_signed_vint(value, 6) {
        6
    } else if fits_signed_vint(value, 7) {
        7
    } else if fits_signed_vint(value, 8) {
        8
    } else {
        9
    }
}

/// The payload that stands for `value` in a signed vint of `width` bytes: the
/// value itself, or for a negative one its two's complement over the
/// `7 * width` bits of payload.
pub open spec fn signed_payload(value: int, width: nat) -> nat {
    if value < 0 {
        (value + vint_marker(width)) as nat
    } else {
        value as nat
    }
}

/// The value that `payload` stands for in a signed vint of `width` bytes.
pub open spec fn signed_from_payload(payload: nat, width: nat) -> int {
    if payload >= vint_marker(width) / 2 {
        payload - vint_marker(width)
    } else {
        payload as int
    }
}

/// The signed vint of `width` bytes that carries `value`.
pub open spec fn encode_signed(value: int, width: nat) -> Seq<u8> {
    encode_unsigned(signed_payload(value, width), width)
}

/// What reading a signed vint from the front of `buffer` gives: as for an
/// unsigned one, with the payload read in two's complement.
pub open spec fn decode_signed(buffer: Seq<u8>) -> Result<Option<(i64, usize)>, ToolError> {
    match decode_unsigned(buffer) {
        Ok(Some((payload, width))) => Ok(
            Some((signed_from_payload(payload as nat, width as nat) as i64, width)),
        ),
        Ok(None) => Ok(None),
        Err(e) => Err(e),
    }
}

/// The values of the width markers.
pub proof fn lemma_vint_markers()
    ensures
        vint_marker(0) == 0x1,
        vint_marker(1) == 0x80,
        vint_marker(2) == 0x4000,
        vint_marker(3) == 0x20_0000,
        vint_marker(4) == 0x1000_0000,
        vint_marker(5) == 0x8_0000_0000,
        vint_marker(6) == 0x400_0000_0000,
        vint_marker(7) == 0x2_0000_0000_0000,
        vint_marker(8) == 0x100_0000_0000_0000,
{
    lemma2_to64();
    lemma2_to64_rest();
}

/// The values of the powers of 256 up to the eighth.
pub proof fn lemma_pow256_values()
    ensures
        pow256(0) == 0x1,
        pow256(1) == 0x100,
        pow256(2) == 0x1_0000,
        pow256(3) == 0x100_0000,
        pow256(4) == 0x1_0000_0000,
        pow256(5) == 0x100_0000_0000,
        pow256(6) == 0x1_0000_0000_0000,
        pow256(7) == 0x100_0000_0000_0000,
        pow256(8) == 0x1_0000_0000_0000_0000,
{
    reveal_with_fuel(pow256, 9);
}

/// `be_bytes` gives as many bytes as it is asked for.
pub proof fn lemma_be_bytes_len(value: nat, width: nat)
    ensures
        be_bytes(value, width).len() == width,
    decreases width,
{
    if width > 0 {
        lemma_be_bytes_len(value / 256, (width - 1) as nat);
    }
}

/// A number below `256^width` is read back from its `width` bytes.
pub proof fn lemma_be_value_of_bytes(value: nat, width: nat)
    requires
        value < pow256(width),
    ensures
        be_value(be_bytes(value, width)) == value,
    decreases width,
{
    if width > 0 {
        let rest = be_bytes(value / 256, (width - 1) as nat);
        lemma_be_value_of_bytes(value / 256, (width - 1) as nat);
        assert(rest.push((value % 256) as u8).drop_last() =~= rest);
    }
}

/// The number that `bytes` spell is below `256^len`.
pub proof fn lemma_be_value_bound(bytes: Seq<u8>)
    ensures
        be_value(bytes) < pow256(bytes.len()),
    decreases bytes.len(),
{
    if bytes.len() > 0 {
        lemma_be_value_bound(bytes.drop_last());
    }
}

/// Bytes are given back by writing the number that they spell.
pub proof fn lemma_be_bytes_of_value(bytes: Seq<u8>)
    ensures
        be_bytes(be_value(bytes), bytes.len()) == bytes,
    decreases bytes.len(),
{
    if bytes.len() > 0 {
        let front = bytes.drop_last();
        lemma_be_bytes_of_value(front);
        let v = be_value(bytes);
        assert(v / 256 == be_value(front));
        assert(v % 256 == bytes.last() as nat);
        assert(be_bytes(v, bytes.len()) =~= bytes);
    }
}

/// The first byte bounds the number that the bytes spell: it is the number
/// without its `len - 1` low-order bytes.
pub proof fn lemma_be_value_first(bytes: Seq<u8>)
    requires
        bytes.len() > 0,
    ensures
        bytes[0] as nat * pow256((bytes.len() - 1) as nat) <= be_value(bytes),
        be_value(bytes) < (bytes[0] as nat + 1) * pow256((bytes.len() - 1) as nat),
    decreases bytes.len(),
{
    let f = bytes[0] as nat;
    let q = pow256((bytes.len() - 1) as nat);
    if bytes.len() == 1 {
        assert(bytes.drop_last().len() == 0);
        assert(be_value(bytes.drop_last()) == 0);
        assert(be_value(bytes) == f);
        assert(q == 1);
        assert(f * q == f && (f + 1) * q == f + 1) by (nonlinear_arith)
            requires
                q == 1,
        ;
    } else {
        let front = bytes.drop_last();
        lemma_be_value_first(front);
        assert(front[0] == bytes[0]);
        let p = pow256((bytes.len() - 2) as nat);
        let v = be_value(front);
        assert(q == 256 * p);
        assert(be_value(bytes) == v * 256 + bytes.last() as nat);
        assert(f * p <= v && v + 1 <= (f + 1) * p);
        assert(f * q <= v * 256 && (v + 1) * 256 <= (f + 1) * q) by (nonlinear_arith)
            requires
                q == 256 * p,
                f * p <= v,
                v + 1 <= (f + 1) * p,
        ;
    }
}

/// Bytes followed by a suffix spell the number of the bytes, shifted by the
/// suffix's length, plus the number of the suffix.
pub proof fn lemma_be_value_concat(a: Seq<u8>, b: Seq<u8>)
    ensures
        be_value(a + b) == be_value(a) * pow256(b.len()) + be_value(b),
    decreases b.len(),
{
    if b.len() == 0 {
        assert(a + b =~= a);
        assert(pow256(b.len()) == 1);
        assert(be_value(b) == 0);
        assert(be_value(a) * 1 == be_value(a));
    } else {
        lemma_be_value_concat(a, b.drop_last());
        assert((a + b).drop_last() =~= a + b.drop_last());
        assert((a + b).last() == b.last());
        let x = be_value(a);
        let y = be_value(b.drop_last());
        let p = pow256((b.len() - 1) as nat);
        assert(be_value(a + b) == (x * p + y) * 256 + b.last() as nat);
        assert(pow256(b.len()) == 256 * p);
        assert((x * p + y) * 256 == x * (256 * p) + y * 256) by (nonlinear_arith);
        assert(be_value(b) == y * 256 + b.last() as nat);
        assert(x * pow256(b.len()) == x * (256 * p));
    }
}

/// A number whose leading byte, of `width` bytes, is `first` carries the width
/// marker of `width`, and nothing above it, exactly when `first` announces
/// `width`.
pub proof fn lemma_first_byte_marker(first: u8, n: nat, width: nat)
    requires
        1 <= width <= 8,
        first as nat * pow256((width - 1) as nat) <= n,
        n < (first as nat + 1) * pow256((width - 1) as nat),
    ensures
        vint_marker(width) <= n < 2 * vint_marker(width) <==> vint_width(first) == width,
{
    lemma_vint_markers();
    lemma_pow256_values();
    let f = first as nat;
    let p = pow256((width - 1) as nat);
    if width == 1 {
        assert(p == 0x1);
        assert(f * p == f && (f + 1) * p == f + 1) by (nonlinear_arith)
            requires
                p == 0x1,
        ;
    } else if width == 2 {
        assert(p == 0x100);
        assert(f * p == f * 0x100 && (f + 1) * p == f * 0x100 + 0x100) by (nonlinear_arith)
            requires
                p == 0x100,
        ;
    } else if width == 3 {
        assert(p == 0x1_0000);
        assert(f * p == f * 0x1_0000 && (f + 1) * p == f * 0x1_0000 + 0x1_0000)
            by (nonlinear_arith)
            requires
                p == 0x1_0000,
        ;
    } else if width == 4 {
        assert(p == 0x100_0000);
        assert(f * p == f * 0x100_0000 && (f + 1) * p == f * 0x100_0000 + 0x100_0000)
            by (nonlinear_arith)
            requires
                p == 0x100_0000,
        ;
    } else if width == 5 {
        assert(p == 0x1_0000_0000);
        assert(f * p == f * 0x1_0000_0000 && (f + 1) * p == f * 0x1_0000_0000 + 0x1_0000_0000)
            by (nonlinear_arith)
            requires
                p == 0x1_0000_0000,
        ;
    } else if width == 6 {
        assert(p == 0x100_0000_0000);
        assert(f * p == f * 0x100_0000_0000 && (f + 1) * p == f * 0x100_0000_0000
            + 0x100_0000_0000) by (nonlinear_arith)
            requires
                p == 0x100_0000_0000,
        ;
    } else if width == 7 {
        assert(p == 0x1_0000_0000_0000);
        assert(f * p == f * 0x1_0000_0000_0000 && (f + 1) * p == f * 0x1_0000_0000_0000
            + 0x1_0000_0000_0000) by (nonlinear_arith)
            requires
                p == 0x1_0000_0000_0000,
        ;
    } else {
        assert(p == 0x100_0000_0000_0000);
        assert(f * p == f * 0x100_0000_0000_0000 && (f + 1) * p == f * 0x100_0000_0000_0000
            + 0x100_0000_0000_0000) by (nonlinear_arith)
            requires
                p == 0x100_0000_0000_0000,
        ;
    }
}

/// The first byte of a vint announces the width that the vint was written with.
pub proof fn lemma_encode_unsigned_first(value: nat, width: nat)
    requires
        1 <= width <= 8,
        value < vint_marker(width),
    ensures
        encode_unsigned(value, width).len() == width,
        vint_width(encode_unsigned(value, width)[0]) == width,
        encode_unsigned(value, width)[0] != 0,
        be_value(encode_unsigned(value, width)) == value + vint_marker(width),
{
    let n = value + vint_marker(width);
    let bytes = encode_unsigned(value, width);
    lemma_vint_markers();
    lemma_pow256_values();
    lemma_be_bytes_len(n, width);
    lemma_be_value_of_bytes(n, width);
    lemma_be_value_first(bytes);
    lemma_first_byte_marker(bytes[0], n, width);
}

/// Reading a vint gives back the value and the width that it was written with,
/// whatever follows it in the buffer.
pub proof fn lemma_decode_encode_unsigned(value: nat, width: nat, rest: Seq<u8>)
    requires
        1 <= width <= 8,
        value < vint_marker(width),
    ensures
        decode_unsigned(encode_unsigned(value, width) + rest) == Ok::<
            Option<(u64, usize)>,
            ToolError,
        >(Some((value as u64, width as usize))),
{
    let bytes = encode_unsigned(value, width);
    lemma_encode_unsigned_first(value, width);
    lemma_vint_markers();
    assert((bytes + rest).subrange(0, width as int) =~= bytes);
    assert((bytes + rest)[0] == bytes[0]);
}

/// A value below 2^56 is read back from the vint that holds it in the least
/// width, and that width is read with it.
pub proof fn lemma_unsigned_round_trip(value: nat)
    requires
        value < vint_marker(8),
    ensures
        1 <= min_vint_width(value) <= 8,
        value < vint_marker(min_vint_width(value)),
        min_vint_width(value) > 1 ==> value >= vint_marker((min_vint_width(value) - 1) as nat),
        decode_unsigned(encode_unsigned(value, min_vint_width(value))) == Ok::<
            Option<(u64, usize)>,
            ToolError,
        >(Some((value as u64, min_vint_width(value) as usize))),
{
    let width = min_vint_width(value);
    lemma_vint_markers();
    lemma_decode_encode_unsigned(value, width, Seq::empty());
    assert(encode_unsigned(value, width) + Seq::<u8>::empty() =~= encode_unsigned(value, width));
}

/// The payload of a signed vint stands for the value that it was made from.
pub proof fn lemma_signed_payload(value: int, width: nat)
    requires
        1 <= width <= 8,
        fits_signed_vint(value, width),
    ensures
        signed_payload(value, width) < vint_marker(width),
        signed_from_payload(signed_payload(value, width), width) == value,
{
    lemma_vint_markers();
}

/// Reading a signed vint gives back the value and the width that it was
/// written with, whatever follows it in the buffer.
pub proof fn lemma_decode_encode_signed(value: int, width: nat, rest: Seq<u8>)
    requires
        1 <= width <= 8,
        fits_signed_vint(value, width),
    ensures
        decode_signed(encode_signed(value, width) + rest) == Ok::<
            Option<(i64, usize)>,
            ToolError,
        >(Some((value as i64, width as usize))),
{
    lemma_signed_payload(value, width);
    lemma_vint_markers();
    lemma_decode_encode_unsigned(signed_payload(value, width), width, rest);
}

/// A value from -2^55 up to, not including, 2^55 is read back from the signed
/// vint that holds it in the least width, and that width is read with it.
pub proof fn lemma_signed_round_trip(value: int)
    requires
        fits_signed_vint(value, 8),
    ensures
        1 <= min_signed_vint_width(value) <= 8,
        fits_signed_vint(value, min_signed_vint_width(value)),
        min_signed_vint_width(value) > 1 ==> !fits_signed_vint(
            value,
            (min_signed_vint_width(value) - 1) as nat,
        ),
        decode_signed(encode_signed(value, min_signed_vint_width(value))) == Ok::<
            Option<(i64, usize)>,
            ToolError,
        >(Some((value as i64, min_signed_vint_width(value) as usize))),
{
    let width = min_signed_vint_width(value);
    lemma_decode_encode_signed(value, width, Seq::empty());
    assert(encode_signed(value, width) + Seq::<u8>::empty() =~= encode_signed(value, width));
}

/// The width marker of a vint of `width` bytes.
pub fn marker_of_width(width: usize) -> (r: u64)
    requires
        1 <= width <= 8,
    ensures
        r == vint_marker(width as nat),
{
    proof {
        lemma_vint_markers();
    }
    if width == 1 {
        0x80
    } else if width == 2 {
        0x4000
    } else if width == 3 {
        0x20_0000
    } else if width == 4 {
        0x1000_0000
    } else if width == 5 {
        0x8_0000_0000
    } else if width == 6 {
        0x400_0000_0000
    } else if width == 7 {
        0x2_0000_0000_0000
    } else {
        0x100_0000_0000_0000
    }
}

/// The width that the first byte of a vint announces.
pub fn width_of_first_byte(first: u8) -> (r: usize)
    ensures
        r == vint_width(first),
{
    if first >= 0x80 {
        1
    } else if first >= 0x40 {
        2
    } else if first >= 0x20 {
        3
    } else if first >= 0x10 {
        4
    } else if first >= 0x08 {
        5
    } else if first >= 0x04 {
        6
    } else if first >= 0x02 {
        7
    } else if first >= 0x01 {
        8
    } else {
        9
    }
}

/// Writes the `width` low-order bytes of `value` in big-endian order.
pub fn be_encode(value: u64, width: usize) -> (r: Vec<u8>)
    requires
        width <= 8,
    ensures
        r@ == be_bytes(value as nat, width as nat),
    decreases width,
{
    if width == 0 {
        Vec::new()
    } else {
        let mut bytes: Vec<u8> = be_encode(value / 256, width - 1);
        bytes.push((value % 256) as u8);
        bytes
    }
}

/// Reads the first `len` bytes of `bytes` as a big-endian number.
pub fn be_decode(bytes: &[u8], len: usize) -> (r: u64)
    requires
        len <= 8,
        len <= bytes@.len(),
    ensures
        r == be_value(bytes@.subrange(0, len as int)),
{
    let mut value: u64 = 0;
    let mut i: usize = 0;
    proof {
        lemma_pow256_values();
    }
    while i < len
        invariant
            i <= len <= 8,
            len <= bytes@.len(),
            value == be_value(bytes@.subrange(0, i as int)),
            value < pow256(i as nat),
        decreases len - i,
    {
        proof {
            lemma_pow256_values();
            assert(bytes@.subrange(0, i + 1).drop_last() =~= bytes@.subrange(0, i as int));
            assert(pow256((i + 1) as nat) == 256 * pow256(i as nat));
        }
        value = value * 256 + bytes[i] as u64;
        i += 1;
    }
    value
}

/// Refuses a value that a vint of `max_length` bytes cannot carry.
pub fn check_size_u64(val: u64, max_length: usize) -> (r: Result<(), ToolError>)
    requires
        1 <= max_length <= 8,
    ensures
        val < vint_marker(max_length as nat) ==> r == Ok::<(), ToolError>(()),
        val >= vint_marker(max_length as nat) ==> r == Err::<(), ToolError>(
            ToolError::WriteVintOverflow(val),
        ),
{
    if val >= marker_of_width(max_length) {
        Err(ToolError::WriteVintOverflow(val))
    } else {
        Ok(())
    }
}

/// Writes `val` as a vint of `length` bytes.
pub fn as_vint_no_check_u64(val: u64, length: usize) -> (r: Vec<u8>)
    requires
        1 <= length <= 8,
        val < vint_marker(length as nat),
    ensures
        r@ == encode_unsigned(val as nat, length as nat),
{
    proof {
        lemma_vint_markers();
    }
    let marker: u64 = marker_of_width(length);
    be_encode(val + marker, length)
}

/// The least width whose vint can carry `val`.
pub fn least_vint_width(val: u64) -> (r: usize)
    ensures
        r == min_vint_width(val as nat),
{
    let mut length: usize = 1;
    proof {
        lemma_vint_markers();
    }
    while length <= 8
        invariant
            1 <= length <= 9,
            forall|w: nat| 1 <= w < length ==> val >= #[trigger] vint_marker(w),
        ensures
            1 <= length <= 9,
            forall|w: nat| 1 <= w < length ==> val >= #[trigger] vint_marker(w),
            length <= 8 ==> val < vint_marker(length as nat),
        decreases 9 - length,
    {
        if val < marker_of_width(length) {
            break ;
        }
        length += 1;
    }
    proof {
        assert(length > 1 ==> val >= vint_marker(1));
        assert(length > 2 ==> val >= vint_marker(2));
        assert(length > 3 ==> val >= vint_marker(3));
        assert(length > 4 ==> val >= vint_marker(4));
        assert(length > 5 ==> val >= vint_marker(5));
        assert(length > 6 ==> val >= vint_marker(6));
        assert(length > 7 ==> val >= vint_marker(7));
        assert(length > 8 ==> val >= vint_marker(8));
    }
    length
}

/// What writing `val` as a vint gives: the vint of `width` bytes where a width
/// is given, of the least width where none is; an error for a value that does
/// not fit.
pub open spec fn spec_as_vint(val: u64, width: Option<usize>) -> Result<Seq<u8>, ToolError> {
    let w = match width {
        Some(w) => w as nat,
        None => if min_vint_width(val as nat) <= 8 {
            min_vint_width(val as nat)
        } else {
            8
        },
    };
    if val < vint_marker(w) {
        Ok(encode_unsigned(val as nat, w))
    } else {
        Err(ToolError::WriteVintOverflow(val))
    }
}

/// Whether `r` is the outcome `expected`, the bytes taken by their view.
pub open spec fn is_bytes_result(r: Result<Vec<u8>, ToolError>, expected: Result<Seq<u8>, ToolError>) -> bool {
    match expected {
        Ok(bytes) => r.is_ok() && r.unwrap()@ == bytes,
        Err(e) => r == Err::<Vec<u8>, ToolError>(e),
    }
}

/// Writes `val` as a vint of the least width that can carry it.
pub fn encode_vint(val: u64) -> (r: Result<Vec<u8>, ToolError>)
    ensures
        is_bytes_result(r, spec_as_vint(val, None)),
{
    proof {
        lemma_vint_markers();
    }
    match check_size_u64(val, 8) {
        Err(e) => Err(e),
        Ok(_) => {
            let length: usize = least_vint_width(val);
            Ok(as_vint_no_check_u64(val, length))
        },
    }
}

/// Writes `val` as a vint of `length` bytes.
pub fn encode_vint_with_length(val: u64, length: usize) -> (r: Result<Vec<u8>, ToolError>)
    requires
        1 <= length <= 8,
    ensures
        is_bytes_result(r, spec_as_vint(val, Some(length))),
{
    match check_size_u64(val, length) {
        Err(e) => Err(e),
        Ok(_) => Ok(as_vint_no_check_u64(val, length)),
    }
}

/// Unsigned integers that can be written as a vint.
pub trait Vint: Copy {
    /// The value as a `u64`.
    spec fn vint_value(&self) -> u64;

    /// Writes the value as a vint of the least width that can carry it. A value
    /// of 2^56 or more has no vint.
    fn as_vint(&self) -> (r: Result<Vec<u8>, ToolError>)
        ensures
            is_bytes_result(r, spec_as_vint(self.vint_value(), None)),
    ;

    /// Writes the value as a vint of `length` bytes. A value of `2^(7 * length)`
    /// or more has none.
    fn as_vint_with_length(&self, length: usize) -> (r: Result<Vec<u8>, ToolError>)
        requires
            1 <= length <= 8,
        ensures
            is_bytes_result(r, spec_as_vint(self.vint_value(), Some(length))),
    ;
}

impl Vint for u64 {
    open spec fn vint_value(&self) -> u64 {
        *self
    }

    fn as_vint(&self) -> (r: Result<Vec<u8>, ToolError>) {
        encode_vint(*self)
    }

    fn as_vint_with_length(&self, length: usize) -> (r: Result<Vec<u8>, ToolError>) {
        encode_vint_with_length(*self, length)
    }
}

impl Vint for u32 {
    open spec fn vint_value(&self) -> u64 {
        *self as u64
    }

    fn as_vint(&self) -> (r: Result<Vec<u8>, ToolError>) {
        encode_vint(*self as u64)
    }

    fn as_vint_with_length(&self, length: usize) -> (r: Result<Vec<u8>, ToolError>) {
        encode_vint_with_length(*self as u64, length)
    }
}

impl Vint for u16 {
    open spec fn vint_value(&self) -> u64 {
        *self as u64
    }

    fn as_vint(&self) -> (r: Result<Vec<u8>, ToolError>) {
        encode_vint(*self as u64)
    }

    fn as_vint_with_length(&self, length: usize) -> (r: Result<Vec<u8>, ToolError>) {
        encode_vint_with_length(*self as u64, length)
    }
}

impl Vint for u8 {
    open spec fn vint_value(&self) -> u64 {
        *self as u64
    }

    fn as_vint(&self) -> (r: Result<Vec<u8>, ToolError>) {
        encode_vint(*self as u64)
    }

    fn as_vint_with_length(&self, length: usize) -> (r: Result<Vec<u8>, ToolError>) {
        encode_vint_with_length(*self as u64, length)
    }
}

/// Reads a vint from the front of `buffer`.
///
/// Gives `None` while the buffer does not hold the whole vint, and else the
/// value with the width of the vint in bytes, which is at most the length of
/// the buffer. A first byte of zero is an error: it announces a vint of more
/// than eight bytes.
pub fn read_vint(buffer: &[u8]) -> (r: Result<Option<(u64, usize)>, ToolError>)
    ensures
        r == decode_unsigned(buffer@),
{
    if buffer.len() == 0 {
        return Ok(None);
    }
    if buffer[0] == 0 {
        return Err(ToolError::ReadVintOverflow);
    }
    let length: usize = width_of_first_byte(buffer[0]);
    if length > buffer.len() {
        return Ok(None);
    }
    let raw: u64 = be_decode(buffer, length);
    proof {
        let prefix = buffer@.subrange(0, length as int);
        lemma_be_value_first(prefix);
        assert(prefix[0] == buffer@[0]);
        lemma_first_byte_marker(prefix[0], be_value(prefix), length as nat);
        lemma_vint_markers();
    }
    Ok(Some((raw - marker_of_width(length), length)))
}

/// Refuses a value that a signed vint of `max_length` bytes cannot carry.
pub fn check_size_i64(val: i64, max_length: usize) -> (r: Result<(), ToolError>)
    requires
        1 <= max_length <= 8,
    ensures
        fits_signed_vint(val as int, max_length as nat) ==> r == Ok::<(), ToolError>(()),
        !fits_signed_vint(val as int, max_length as nat) ==> r == Err::<(), ToolError>(
            ToolError::WriteSignedVintOverflow(val),
        ),
{
    proof {
        lemma_vint_markers();
    }
    let half: i64 = (marker_of_width(max_length) / 2) as i64;
    if val < -half || val >= half {
        Err(ToolError::WriteSignedVintOverflow(val))
    } else {
        Ok(())
    }
}

/// Writes `val` as a signed vint of `length` bytes.
pub fn as_vint_no_check_i64(val: i64, length: usize) -> (r: Vec<u8>)
    requires
        1 <= length <= 8,
        fits_signed_vint(val as int, length as nat),
    ensures
        r@ == encode_signed(val as int, length as nat),
{
    proof {
        lemma_vint_markers();
    }
    let marker: u64 = marker_of_width(length);
    let payload: u64 = if val < 0 {
        (val + marker as i64) as u64
    } else {
        val as u64
    };
    be_encode(payload + marker, length)
}

/// The least width whose signed vint can carry `val`.
pub fn least_signed_vint_width(val: i64) -> (r: usize)
    ensures
        r == min_signed_vint_width(val as int),
{
    let mut length: usize = 1;
    proof {
        lemma_vint_markers();
    }
    while length <= 8
        invariant
            1 <= length <= 9,
            forall|w: nat| 1 <= w < length ==> !#[trigger] fits_signed_vint(val as int, w),
        ensures
            1 <= length <= 9,
            forall|w: nat| 1 <= w < length ==> !#[trigger] fits_signed_vint(val as int, w),
            length <= 8 ==> fits_signed_vint(val as int, length as nat),
        decreases 9 - length,
    {
        let half: i64 = (marker_of_width(length) / 2) as i64;
        if val >= -half && val < half {
            break ;
        }
        length += 1;
    }
    proof {
        assert(length > 1 ==> !fits_signed_vint(val as int, 1));
        assert(length > 2 ==> !fits_signed_vint(val as int, 2));
        assert(length > 3 ==> !fits_signed_vint(val as int, 3));
        assert(length > 4 ==> !fits_signed_vint(val as int, 4));
        assert(length > 5 ==> !fits_signed_vint(val as int, 5));
        assert(length > 6 ==> !fits_signed_vint(val as int, 6));
        assert(length > 7 ==> !fits_signed_vint(val as int, 7));
        assert(length > 8 ==> !fits_signed_vint(val as int, 8));
    }
    length
}

/// What writing `val` as a signed vint gives: the vint of `width` bytes where a
/// width is given, of the least width where none is; an error for a value that
/// does not fit.
pub open spec fn spec_as_signed_vint(val: i64, width: Option<usize>) -> Result<
    Seq<u8>,
    ToolError,
> {
    let w = match width {
        Some(w) => w as nat,
        None => if min_signed_vint_width(val as int) <= 8 {
            min_signed_vint_width(val as int)
        } else {
            8
        },
    };
    if fits_signed_vint(val as int, w) {
        Ok(encode_signed(val as int, w))
    } else {
        Err(ToolError::WriteSignedVintOverflow(val))
    }
}

/// Writes `val` as a signed vint of the least width that can carry it.
pub fn encode_signed_vint(val: i64) -> (r: Result<Vec<u8>, ToolError>)
    ensures
        is_bytes_result(r, spec_as_signed_vint(val, None)),
{
    proof {
        lemma_vint_markers();
    }
    match check_size_i64(val, 8) {
        Err(e) => Err(e),
        Ok(_) => {
            let length: usize = least_signed_vint_width(val);
            Ok(as_vint_no_check_i64(val, length))
        },
    }
}

/// Writes `val` as a signed vint of `length` bytes.
pub fn encode_signed_vint_with_length(val: i64, length: usize) -> (r: Result<Vec<u8>, ToolError>)
    requires
        1 <= length <= 8,
    ensures
        is_bytes_result(r, spec_as_signed_vint(val, Some(length))),
{
    match check_size_i64(val, length) {
        Err(e) => Err(e),
        Ok(_) => Ok(as_vint_no_check_i64(val, length)),
    }
}

/// Signed integers that can be written as a signed vint.
///
/// A signed vint has the frame of a vint; its payload, the `7 * width` bits
/// under the width marker, holds the value in two's complement. So -33 is the
/// one byte `0xDF`, 200 is `0x40 0xC8`, -200 is `0x7F 0x38` and -1 is `0xFF`.
pub trait SignedVint: Copy {
    /// The value as an `i64`.
    spec fn signed_vint_value(&self) -> i64;

    /// Writes the value as a signed vint of the least width that can carry it.
    /// A value below -2^55, or of 2^55 or more, has none.
    fn as_signed_vint(&self) -> (r: Result<Vec<u8>, ToolError>)
        ensures
            is_bytes_result(r, spec_as_signed_vint(self.signed_vint_value(), None)),
    ;

    /// Writes the value as a signed vint of `length` bytes. A value outside
    /// `-2^(7 * length - 1) .. 2^(7 * length - 1)` has none.
    fn as_signed_vint_with_length(&self, length: usize) -> (r: Result<Vec<u8>, ToolError>)
        requires
            1 <= length <= 8,
        ensures
            is_bytes_result(r, spec_as_signed_vint(self.signed_vint_value(), Some(length))),
    ;
}

impl SignedVint for i64 {
    open spec fn signed_vint_value(&self) -> i64 {
        *self
    }

    fn as_signed_vint(&self) -> (r: Result<Vec<u8>, ToolError>) {
        encode_signed_vint(*self)
    }

    fn as_signed_vint_with_length(&self, length: usize) -> (r: Result<Vec<u8>, ToolError>) {
        encode_signed_vint_with_length(*self, length)
    }
}

impl SignedVint for i32 {
    open spec fn signed_vint_value(&self) -> i64 {
        *self as i64
    }

    fn as_signed_vint(&self) -> (r: Result<Vec<u8>, ToolError>) {
        encode_signed_vint(*self as i64)
    }

    fn as_signed_vint_with_length(&self, length: usize) -> (r: Result<Vec<u8>, ToolError>) {
        encode_signed_vint_with_length(*self as i64, length)
    }
}

impl SignedVint for i16 {
    open spec fn signed_vint_value(&self) -> i64 {
        *self as i64
    }

    fn as_signed_vint(&self) -> (r: Result<Vec<u8>, ToolError>) {
        encode_signed_vint(*self as i64)
    }

    fn as_signed_vint_with_length(&self, length: usize) -> (r: Result<Vec<u8>, ToolError>) {
        encode_signed_vint_with_length(*self as i64, length)
    }
}

impl SignedVint for i8 {
    open spec fn signed_vint_value(&self) -> i64 {
        *self as i64
    }

    fn as_signed_vint(&self) -> (r: Result<Vec<u8>, ToolError>) {
        encode_signed_vint(*self as i64)
    }

    fn as_signed_vint_with_length(&self, length: usize) -> (r: Result<Vec<u8>, ToolError>) {
        encode_signed_vint_with_length(*self as i64, length)
    }
}

/// Reads a signed vint from the front of `buffer`.
///
/// Gives `None` while the buffer does not hold the whole vint, and else the
/// value with the width of the vint in bytes, which is at most the length of
/// the buffer. A first byte of zero is an error: it announces a vint of more
/// than eight bytes.
pub fn read_signed_vint(buffer: &[u8]) -> (r: Result<Option<(i64, usize)>, ToolError>)
    ensures
        r == decode_signed(buffer@),
{
    match read_vint(buffer) {
        Err(e) => Err(e),
        Ok(None) => Ok(None),
        Ok(Some((payload, length))) => {
            proof {
                let prefix = buffer@.subrange(0, length as int);
                lemma_be_value_first(prefix);
                assert(prefix[0] == buffer@[0]);
                lemma_first_byte_marker(prefix[0], be_value(prefix), length as nat);
                lemma_vint_markers();
            }
            let marker: u64 = marker_of_width(length);
            let value: i64 = if payload >= marker / 2 {
                payload as i64 - marker as i64
            } else {
                payload as i64
            };
            Ok(Some((value, length)))
        },
    }
}

/// 256 to the power `n`, for `n` up to 7.
pub fn pow256_of(n: usize) -> (r: u64)
    requires
        n <= 7,
    ensures
        r == pow256(n as nat),
{
    proof {
        lemma_pow256_values();
    }
    if n == 0 {
        0x1
    } else if n == 1 {
        0x100
    } else if n == 2 {
        0x1_0000
    } else if n == 3 {
        0x100_0000
    } else if n == 4 {
        0x1_0000_0000
    } else if n == 5 {
        0x100_0000_0000
    } else if n == 6 {
        0x1_0000_0000_0000
    } else {
        0x100_0000_0000_0000
    }
}

/// Reads a `u64` from a slice of up to eight bytes, in big-endian order: `[4, 0]`
/// is 1024, and the empty slice is 0. A longer slice is an error, which gives
/// the bytes back.
pub fn arr_to_u64(arr: &[u8]) -> (r: Result<u64, ToolError>)
    ensures
        arr@.len() <= 8 ==> r == Ok::<u64, ToolError>(be_value(arr@) as u64),
        arr@.len() > 8 ==> (r matches Err(ToolError::ReadU64Overflow(bytes)) && bytes@ == arr@),
{
    if arr.len() > 8 {
        return Err(ToolError::ReadU64Overflow(slice_to_vec(arr)));
    }
    proof {
        assert(arr@.subrange(0, arr@.len() as int) =~= arr@);
    }
    Ok(be_decode(arr, arr.len()))
}

/// Reads an `i64` from a slice of up to eight bytes, in big-endian two's
/// complement: the high bit of the first byte is the sign, so `[0xFF]` is -1
/// and `[0, 0xFF]` is 255. The empty slice is 0. A longer slice is an error,
/// which gives the bytes back.
pub fn arr_to_i64(arr: &[u8]) -> (r: Result<i64, ToolError>)
    ensures
        arr@.len() <= 8 ==> r == Ok::<i64, ToolError>(be_signed_value(arr@) as i64),
        arr@.len() > 8 ==> (r matches Err(ToolError::ReadI64Overflow(bytes)) && bytes@ == arr@),
{
    if arr.len() > 8 {
        return Err(ToolError::ReadI64Overflow(slice_to_vec(arr)));
    }
    if arr.len() == 0 {
        return Ok(0);
    }
    proof {
        assert(arr@.subrange(0, arr@.len() as int) =~= arr@);
        lemma_be_value_first(arr@);
        lemma_be_value_bound(arr@);
        lemma_pow256_values();
    }
    let raw: u64 = be_decode(arr, arr.len());
    if arr[0] > 127 {
        if arr.len() == 8 {
            proof {
                assert(128 * pow256(7) == 0x8000_0000_0000_0000);
                assert(arr@[0] as nat * pow256(7) >= 128 * pow256(7)) by (nonlinear_arith)
                    requires
                        arr@[0] >= 128,
                ;
            }
            Ok(((raw - 0x8000_0000_0000_0000u64) as i64) + i64::MIN)
        } else {
            proof {
                assert(pow256(arr@.len()) <= pow256(7));
            }
            Ok(raw as i64 - (pow256_of(arr.len()) as i64))
        }
    } else {
        proof {
            assert((arr@[0] as nat + 1) * pow256((arr@.len() - 1) as nat) <= 128 * pow256(
                (arr@.len() - 1) as nat,
            )) by (nonlinear_arith)
                requires
                    arr@[0] <= 127,
            ;
            assert(128 * pow256((arr@.len() - 1) as nat) <= 128 * pow256(7));
        }
        Ok(raw as i64)
    }
}

/// The bits of an IEEE-754 number as an element holds them: in single or in
/// double precision.
#[derive(Copy, Clone, Debug, PartialEq, Eq, Structural)]
pub enum FloatBits {
    /// The 32 bits of a single-precision number.
    Single(u32),
    /// The 64 bits of a double-precision number.
    Double(u64),
}

/// What a slice of bytes gives as the bits of a float.
pub open spec fn spec_float_bits(arr: Seq<u8>) -> Option<FloatBits> {
    if arr.len() == 4 {
        Some(FloatBits::Single(be_value(arr) as u32))
    } else if arr.len() == 8 {
        Some(FloatBits::Double(be_value(arr) as u64))
    } else {
        None
    }
}

/// Reads the bits of a float from a slice of four or of eight bytes, in
/// big-endian order. A slice of another length is an error, which gives the
/// bytes back.
pub fn arr_to_float_bits(arr: &[u8]) -> (r: Result<FloatBits, ToolError>)
    ensures
        match spec_float_bits(arr@) {
            Some(bits) => r == Ok::<FloatBits, ToolError>(bits),
            None => r matches Err(ToolError::ReadF64Mismatch(bytes)) && bytes@ == arr@,
        },
{
    proof {
        assert(arr@.subrange(0, arr@.len() as int) =~= arr@);
        lemma_be_value_bound(arr@);
        lemma_pow256_values();
    }
    if arr.len() == 4 {
        Ok(FloatBits::Single(be_decode(arr, 4) as u32))
    } else if arr.len() == 8 {
        Ok(FloatBits::Double(be_decode(arr, 8)))
    } else {
        Err(ToolError::ReadF64Mismatch(slice_to_vec(arr)))
    }
}


} // verus!
