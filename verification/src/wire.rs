//! Big-endian integers, as every field of a segment footer is written.

use vstd::prelude::*;

verus! {

/// 256 to the power of `width`: one past the greatest value of `width` bytes.
pub open spec fn radix(width: nat) -> nat
    decreases width,
{
    if width == 0 {
        1
    } else {
        256 * radix((width - 1) as nat)
    }
}

/// The `width` big-endian bytes of `value` (of its low bytes, if it has more).
pub open spec fn be(value: nat, width: nat) -> Seq<u8>
    decreases width,
{
    if width == 0 {
        Seq::empty()
    } else {
        be(value / 256, (width - 1) as nat).push((value % 256) as u8)
    }
}

/// The value that a run of big-endian bytes stands for.
pub open spec fn be_value(bytes: Seq<u8>) -> nat
    decreases bytes.len(),
{
    if bytes.len() == 0 {
        0
    } else {
        be_value(bytes.drop_last()) * 256 + bytes.last() as nat
    }
}

/// The unsigned pattern of a two's complement integer of `width` bytes.
pub open spec fn pattern(value: int, width: nat) -> nat {
    if value < 0 {
        (value + radix(width)) as nat
    } else {
        value as nat
    }
}

/// The two's complement integer whose pattern of `width` bytes is `value`.
pub open spec fn signed(value: nat, width: nat) -> int {
    if value >= radix(width) / 2 {
        value - radix(width)
    } else {
        value as int
    }
}

pub proof fn lemma_radix_values()
    ensures
        radix(0) == 1,
        radix(1) == 0x100,
        radix(2) == 0x1_0000,
        radix(4) == 0x1_0000_0000,
        radix(8) == 0x1_0000_0000_0000_0000,
        radix(16) == 0x1_0000_0000_0000_0000_0000_0000_0000_0000,
{
    reveal_with_fuel(radix, 17);
}

pub proof fn lemma_radix_monotone(a: nat, b: nat)
    requires
        a <= b,
    ensures
        1 <= radix(a) <= radix(b),
    decreases b,
{
    if b > 0 {
        if a < b {
            lemma_radix_monotone(a, (b - 1) as nat);
        } else {
            lemma_radix_monotone((a - 1) as nat, (b - 1) as nat);
        }
    }
}

pub proof fn lemma_be_len(value: nat, width: nat)
    ensures
        be(value, width).len() == width,
    decreases width,
{
    if width > 0 {
        lemma_be_len(value / 256, (width - 1) as nat);
    }
}

pub proof fn lemma_be_value_bound(bytes: Seq<u8>)
    ensures
        be_value(bytes) < radix(bytes.len()),
    decreases bytes.len(),
{
    if bytes.len() > 0 {
        lemma_be_value_bound(bytes.drop_last());
    }
}

/// Reading back the bytes of a value gives the value, if it fits the width.
pub proof fn be_round_trip(value: nat, width: nat)
    requires
        value < radix(width),
    ensures
        be_value(be(value, width)) == value,
    decreases width,
{
    if width > 0 {
        let low = (width - 1) as nat;
        assert(value / 256 < radix(low)) by (nonlinear_arith)
            requires
                value < 256 * radix(low),
        ;
        be_round_trip(value / 256, low);
        assert(be(value, width).drop_last() =~= be(value / 256, low));
    }
}

/// A signed integer survives the trip through its pattern.
pub proof fn signed_round_trip(value: int, width: nat)
    requires
        width > 0,
        -(radix(width) / 2) <= value < radix(width) / 2,
    ensures
        signed(pattern(value, width), width) == value,
        pattern(value, width) < radix(width),
{
    lemma_radix_monotone(1, width);
    assert(radix(1) == 256 * radix(0));
    let low = (width - 1) as nat;
    assert(radix(width) == 256 * radix(low));
}

/// Append the low `width` bytes of `value`, big-endian.
pub fn put_be(buf: &mut Vec<u8>, value: u128, width: usize)
    ensures
        final(buf)@ == old(buf)@ + be(value as nat, width as nat),
    decreases width,
{
    if width > 0 {
        put_be(buf, value / 256, width - 1);
        buf.push((value % 256) as u8);
        proof {
            assert(be(value as nat, width as nat) == be(
                value as nat / 256,
                (width - 1) as nat,
            ).push((value as nat % 256) as u8));
        }
    }
    assert(buf@ =~= old(buf)@ + be(value as nat, width as nat));
}

/// The value of the `width` big-endian bytes at `at`.
pub fn get_be(bytes: &[u8], at: usize, width: usize) -> (value: u128)
    requires
        width <= 16,
        at + width <= bytes@.len(),
    ensures
        value == be_value(bytes@.subrange(at as int, at + width)),
        value < radix(width as nat),
    decreases width,
{
    let ghost run = bytes@.subrange(at as int, at + width);
    proof {
        lemma_be_value_bound(run);
    }
    let _len: usize = bytes.len();
    if width == 0 {
        return 0;
    }
    let high: u128 = get_be(bytes, at, width - 1);
    proof {
        assert(run.drop_last() =~= bytes@.subrange(at as int, at + width - 1));
        lemma_radix_monotone(width as nat, 16);
        lemma_radix_values();
        assert(be_value(run) == high * 256 + bytes@[at + width - 1]);
    }
    high * 256 + bytes[at + width - 1] as u128
}

/// Copy of the bytes `[from, to)`.
pub fn slice_of(bytes: &[u8], from: usize, to: usize) -> (run: Vec<u8>)
    requires
        from <= to <= bytes@.len(),
    ensures
        run@ == bytes@.subrange(from as int, to as int),
{
    let mut run: Vec<u8> = Vec::new();
    let mut at: usize = from;
    while at < to
        invariant
            from <= at <= to <= bytes@.len(),
            run@ == bytes@.subrange(from as int, at as int),
        decreases to - at,
    {
        run.push(bytes[at]);
        at = at + 1;
        assert(run@ =~= bytes@.subrange(from as int, at as int));
    }
    run
}

/// Append every byte of `more`.
pub fn put_all(buf: &mut Vec<u8>, more: &[u8])
    ensures
        final(buf)@ == old(buf)@ + more@,
{
    let mut at: usize = 0;
    while at < more.len()
        invariant
            at <= more@.len(),
            buf@ == old(buf)@ + more@.subrange(0, at as int),
        decreases more@.len() - at,
    {
        buf.push(more[at]);
        at = at + 1;
        assert(more@.subrange(0, at as int) =~= more@.subrange(0, at - 1).push(more@[at - 1]));
        assert(buf@ =~= old(buf)@ + more@.subrange(0, at as int));
    }
    assert(more@.subrange(0, at as int) =~= more@);
}

/// The pattern of an `i16`.
pub fn pattern_i16(value: i16) -> (bits: u128)
    ensures
        bits == pattern(value as int, 2),
{
    let bits: u16 = value as u16;
    proof {
        lemma_radix_values();
        assert(value >= 0i16 ==> bits == value) by (bit_vector)
            requires
                bits == value as u16,
        ;
        assert(value < 0i16 ==> bits as int == value + 0x1_0000) by (bit_vector)
            requires
                bits == value as u16,
        ;
    }
    bits as u128
}

/// The pattern of an `i32`.
pub fn pattern_i32(value: i32) -> (bits: u128)
    ensures
        bits == pattern(value as int, 4),
{
    let bits: u32 = value as u32;
    proof {
        lemma_radix_values();
        assert(value >= 0i32 ==> bits == value) by (bit_vector)
            requires
                bits == value as u32,
        ;
        assert(value < 0i32 ==> bits as int == value + 0x1_0000_0000) by (bit_vector)
            requires
                bits == value as u32,
        ;
    }
    bits as u128
}

/// The pattern of an `i64`.
pub fn pattern_i64(value: i64) -> (bits: u128)
    ensures
        bits == pattern(value as int, 8),
{
    let bits: u64 = value as u64;
    proof {
        lemma_radix_values();
        assert(value >= 0i64 ==> bits == value) by (bit_vector)
            requires
                bits == value as u64,
        ;
        assert(value < 0i64 ==> bits as int == value + 0x1_0000_0000_0000_0000) by (bit_vector)
            requires
                bits == value as u64,
        ;
    }
    bits as u128
}

/// The integer of `width` bytes, at most eight, whose pattern is `bits`.
pub fn signed_of(bits: u128, width: usize) -> (value: i64)
    requires
        0 < width <= 8,
        bits < radix(width as nat),
    ensures
        value == signed(bits as nat, width as nat),
{
    proof {
        lemma_radix_monotone(width as nat, 8);
        lemma_radix_values();
    }
    let mut modulus: u128 = 1;
    let mut at: usize = 0;
    while at < width
        invariant
            at <= width <= 8,
            modulus == radix(at as nat),
        decreases width - at,
    {
        proof {
            lemma_radix_monotone(at as nat, 8);
            lemma_radix_values();
        }
        modulus = modulus * 256;
        at = at + 1;
    }
    if bits >= modulus / 2 {
        (bits as i128 - modulus as i128) as i64
    } else {
        bits as i64
    }
}

/// The highest byte comes first: a wider field holds the same number behind a zero, and
/// its last byte is what is left over of the number.
pub proof fn the_highest_byte_comes_first(value: nat, width: nat)
    requires
        value < radix(width),
    ensures
        be(value, width + 1) == seq![0u8] + be(value, width),
        width > 0 ==> be(value, width).last() == value % 256,
    decreases width,
{
    if width == 0 {
        assert(be(value / 256, 0) =~= Seq::empty());
        assert(be(value, 1) =~= seq![0u8]);
        assert(seq![0u8] + be(value, 0) =~= seq![0u8]);
    } else {
        let less = (width - 1) as nat;
        let high = value / 256;
        assert(radix(width) == 256 * radix(less));
        assert(high < radix(less)) by (nonlinear_arith)
            requires
                high == value / 256,
                value < 256 * radix(less),
        ;
        the_highest_byte_comes_first(high, less);
        assert(be(value, width + 1) =~= seq![0u8] + be(value, width));
    }
}

} // verus!
