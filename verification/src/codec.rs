//! Fixed-width little-endian integer fields.

use vstd::prelude::*;

verus! {

/// `value` in `width` little-endian bytes, higher digits dropped.
pub open spec fn le_bytes(value: nat, width: nat) -> Seq<u8>
    decreases width,
{
    if width == 0 {
        Seq::empty()
    } else {
        seq![(value % 256) as u8] + le_bytes(value / 256, (width - 1) as nat)
    }
}

/// The number whose little-endian digits in base 256 are `bytes`.
pub open spec fn le_value(bytes: Seq<u8>) -> nat
    decreases bytes.len(),
{
    if bytes.len() == 0 {
        0
    } else {
        bytes[0] as nat + 256 * le_value(bytes.drop_first())
    }
}

/// 256 to the power `width`: the count of values that fit `width` bytes.
pub open spec fn byte_span(width: nat) -> nat
    decreases width,
{
    if width == 0 {
        1
    } else {
        256 * byte_span((width - 1) as nat)
    }
}

/// A field is as long as its width says.
pub proof fn lemma_le_bytes_len(value: nat, width: nat)
    ensures
        le_bytes(value, width).len() == width,
    decreases width,
{
    if width > 0 {
        lemma_le_bytes_len(value / 256, (width - 1) as nat);
    }
}

/// The digits of `n` bytes stay below 256 to the power `n`.
pub proof fn lemma_le_value_bound(bytes: Seq<u8>)
    ensures
        le_value(bytes) < byte_span(bytes.len()),
    decreases bytes.len(),
{
    if bytes.len() > 0 {
        lemma_le_value_bound(bytes.drop_first());
    }
}

pub proof fn lemma_byte_spans()
    ensures
        byte_span(4) == 0x1_0000_0000,
        byte_span(7) == 0x100_0000_0000_0000,
        byte_span(8) == 0x1_0000_0000_0000_0000,
{
    reveal_with_fuel(byte_span, 9);
}

pub proof fn lemma_byte_span_monotonic(a: nat, b: nat)
    requires
        a <= b,
    ensures
        byte_span(a) <= byte_span(b),
        1 <= byte_span(a),
    decreases b,
{
    if b > 0 {
        if a < b {
            lemma_byte_span_monotonic(a, (b - 1) as nat);
        } else {
            lemma_byte_span_monotonic((a - 1) as nat, (b - 1) as nat);
        }
    }
}

/// Reading back a written field gives the value, for every value that fits.
pub proof fn lemma_read_written_field(value: nat, width: nat)
    requires
        value < byte_span(width),
    ensures
        le_value(le_bytes(value, width)) == value,
    decreases width,
{
    if width > 0 {
        let rest = le_bytes(value / 256, (width - 1) as nat);
        assert(le_bytes(value, width).drop_first() == rest);
        lemma_read_written_field(value / 256, (width - 1) as nat);
    }
}

/// Writing back a read field gives the bytes: two fields of one width are
/// equal as soon as their values are.
pub proof fn lemma_write_read_field(bytes: Seq<u8>)
    ensures
        le_bytes(le_value(bytes), bytes.len()) == bytes,
    decreases bytes.len(),
{
    if bytes.len() > 0 {
        let tail = bytes.drop_first();
        lemma_write_read_field(tail);
        let value = le_value(bytes);
        assert(value % 256 == bytes[0] as nat);
        assert(value / 256 == le_value(tail));
        assert(le_bytes(value, bytes.len()) == seq![bytes[0]] + tail);
        assert(seq![bytes[0]] + tail == bytes);
    }
}

/// Appends the low `width` bytes of `value`, least significant first.
pub fn push_le(out: &mut Vec<u8>, value: u64, width: usize)
    ensures
        final(out)@ == old(out)@ + le_bytes(value as nat, width as nat),
{
    let mut rest: u64 = value;
    let mut left: usize = width;
    let ghost whole = le_bytes(value as nat, width as nat);
    assert(out@ + whole == old(out)@ + whole);
    while left > 0
        invariant
            out@ + le_bytes(rest as nat, left as nat) == old(out)@ + le_bytes(
                value as nat,
                width as nat,
            ),
        decreases left,
    {
        let low: u8 = (rest % 256) as u8;
        let ghost before = out@;
        let ghost tail = le_bytes(rest as nat / 256, (left - 1) as nat);
        assert(le_bytes(rest as nat, left as nat) == seq![low] + tail);
        out.push(low);
        assert(out@ + tail == before + (seq![low] + tail));
        rest = rest / 256;
        left = left - 1;
    }
    assert(out@ + le_bytes(rest as nat, 0) == out@);
}

/// Reads the `width`-byte field that starts at `at`.
pub fn read_le(bytes: &[u8], at: usize, width: usize) -> (value: u64)
    requires
        at + width <= bytes.len(),
        width <= 8,
    ensures
        value as nat == le_value(bytes@.subrange(at as int, at + width)),
{
    let mut value: u64 = 0;
    let mut left: usize = width;
    let ghost end = at + width;
    assert(bytes@.subrange(end, end).len() == 0);
    while left > 0
        invariant
            left <= width <= 8,
            end == at + width <= bytes.len(),
            value as nat == le_value(bytes@.subrange(at + left, end)),
        decreases left,
    {
        left = left - 1;
        let ghost field = bytes@.subrange(at + left, end);
        proof {
            let tail = bytes@.subrange(at + left + 1, end);
            assert(field.drop_first() == tail);
            lemma_le_value_bound(tail);
            lemma_byte_span_monotonic(tail.len(), 7);
            lemma_byte_spans();
        }
        value = value * 256 + bytes[at + left] as u64;
    }
    value
}

/// Appends a run of bytes.
pub fn push_bytes(out: &mut Vec<u8>, more: &[u8])
    ensures
        final(out)@ == old(out)@ + more@,
{
    out.extend_from_slice(more);
    assert(out@ == old(out)@ + more@);
}

/// A copy of the bytes from `from` up to but not including `to`.
pub fn copy_range(bytes: &[u8], from: usize, to: usize) -> (out: Vec<u8>)
    requires
        from <= to <= bytes.len(),
    ensures
        out@ == bytes@.subrange(from as int, to as int),
{
    vstd::slice::slice_to_vec(vstd::slice::slice_subrange(bytes, from, to))
}

/// Appends zero bytes until `out` is `len` bytes long.
pub fn pad_zeros(out: &mut Vec<u8>, len: usize)
    requires
        old(out).len() <= len,
    ensures
        final(out)@ == old(out)@ + zeros((len - old(out).len()) as nat),
{
    let ghost before = out@;
    out.resize(len, 0u8);
    assert(out@ == before + zeros((len - before.len()) as nat));
}

/// A run of zero bytes.
pub open spec fn zeros(len: nat) -> Seq<u8> {
    Seq::new(len, |i: int| 0u8)
}

/// The first byte of a field counts least: every further byte counts for 256 times
/// as much as the one before it.
pub proof fn law_fields_begin_with_the_least_byte(bytes: Seq<u8>, value: nat, width: nat, i: int)
    requires
        bytes.len() > 0,
        0 <= i < width,
    ensures
        le_value(bytes) == bytes[0] + 256 * le_value(bytes.skip(1)),
        le_value(seq![bytes[0]]) == bytes[0],
        le_bytes(value, width).len() == width,
        le_bytes(value, width)[0] == value % 256,
        i > 0 ==> le_bytes(value, width)[i] == le_bytes(value / 256, (width - 1) as nat)[i - 1],
{
    reveal_with_fuel(le_value, 2);
    assert(bytes.drop_first() =~= bytes.skip(1));
    lemma_le_bytes_len(value, width);
}

} // verus!
