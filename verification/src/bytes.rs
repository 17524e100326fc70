//! Little-endian fields in byte strings.

use vstd::prelude::*;

verus! {

/// The `width` low bytes of `value`, least significant first.
pub open spec fn le_bytes(value: nat, width: nat) -> Seq<u8>
    decreases width,
{
    if width == 0 {
        Seq::empty()
    } else {
        seq![(value % 256) as u8] + le_bytes(value / 256, (width - 1) as nat)
    }
}

/// The number that `bytes` spell, least significant byte first.
pub open spec fn le_value(bytes: Seq<u8>) -> nat
    decreases bytes.len(),
{
    if bytes.len() == 0 {
        0
    } else {
        bytes[0] as nat + 256 * le_value(bytes.drop_first())
    }
}

/// `count` zero bytes.
pub open spec fn zeros(count: nat) -> Seq<u8> {
    Seq::new(count, |i: int| 0u8)
}

/// The number in the `width` bytes of `bytes` that start at `offset`.
pub open spec fn le_field(bytes: Seq<u8>, offset: int, width: int) -> nat {
    le_value(bytes.subrange(offset, offset + width))
}

/// 256 to the power of `width`: one more than the largest number of that many bytes.
pub open spec fn le_limit(width: nat) -> nat
    decreases width,
{
    if width == 0 {
        1
    } else {
        256 * le_limit((width - 1) as nat)
    }
}

pub proof fn lemma_le_bytes_len(value: nat, width: nat)
    ensures
        le_bytes(value, width).len() == width,
    decreases width,
{
    if width > 0 {
        lemma_le_bytes_len(value / 256, (width - 1) as nat);
    }
}

/// A number that fits `width` bytes is read back from the bytes it is written as.
pub proof fn lemma_value_of_bytes(value: nat, width: nat)
    requires
        value < le_limit(width),
    ensures
        le_value(le_bytes(value, width)) == value,
        le_bytes(value, width).len() == width,
    decreases width,
{
    lemma_le_bytes_len(value, width);
    if width > 0 {
        let rest = le_bytes(value / 256, (width - 1) as nat);
        lemma_value_of_bytes(value / 256, (width - 1) as nat);
        assert(le_bytes(value, width).drop_first() =~= rest);
    }
}

/// A byte string is written back from the number it spells.
pub proof fn lemma_bytes_of_value(bytes: Seq<u8>)
    ensures
        le_bytes(le_value(bytes), bytes.len()) == bytes,
        le_value(bytes) < le_limit(bytes.len()),
    decreases bytes.len(),
{
    if bytes.len() > 0 {
        lemma_bytes_of_value(bytes.drop_first());
        let value = le_value(bytes);
        assert(value % 256 == bytes[0] as nat);
        assert(value / 256 == le_value(bytes.drop_first()));
        assert(le_bytes(value, bytes.len()) =~= bytes);
    } else {
        assert(le_bytes(0, 0) =~= bytes);
    }
}

pub proof fn lemma_limits()
    ensures
        le_limit(1) == 0x100,
        le_limit(2) == 0x1_0000,
        le_limit(4) == 0x1_0000_0000,
        le_limit(8) == 0x1_0000_0000_0000_0000,
{
    reveal_with_fuel(le_limit, 9);
}

/// Appends `value` as `width` little-endian bytes.
fn put(out: &mut Vec<u8>, value: u64, width: usize)
    ensures
        final(out)@ == old(out)@ + le_bytes(value as nat, width as nat),
{
    let mut rest = value;
    let mut done: usize = 0;
    while done < width
        invariant
            done <= width,
            out@ + le_bytes(rest as nat, (width - done) as nat) =~= old(out)@ + le_bytes(
                value as nat,
                width as nat,
            ),
        decreases width - done,
    {
        let ghost before = out@;
        out.push((rest % 256) as u8);
        proof {
            assert(le_bytes(rest as nat, (width - done) as nat) =~= seq![(rest % 256) as u8]
                + le_bytes((rest / 256) as nat, (width - done - 1) as nat));
            assert(out@ =~= before + seq![(rest % 256) as u8]);
            assert(before + (seq![(rest % 256) as u8] + le_bytes((rest / 256) as nat, (width - done - 1) as nat)) =~= out@ + le_bytes((rest / 256) as nat, (width - done - 1) as nat));
        }
        rest = rest / 256;
        done = done + 1;
    }
    proof {
        assert(le_bytes(rest as nat, 0) =~= Seq::<u8>::empty());
        assert(out@ + Seq::<u8>::empty() =~= out@);
    }
}

pub fn put_u16(out: &mut Vec<u8>, value: u16)
    ensures
        final(out)@ == old(out)@ + le_bytes(value as nat, 2),
{
    put(out, value as u64, 2);
}

pub fn put_u32(out: &mut Vec<u8>, value: u32)
    ensures
        final(out)@ == old(out)@ + le_bytes(value as nat, 4),
{
    put(out, value as u64, 4);
}

pub fn put_u64(out: &mut Vec<u8>, value: u64)
    ensures
        final(out)@ == old(out)@ + le_bytes(value as nat, 8),
{
    put(out, value, 8);
}

/// Appends `count` zero bytes.
pub fn put_zeros(out: &mut Vec<u8>, count: usize)
    ensures
        final(out)@ == old(out)@ + zeros(count as nat),
{
    let mut done: usize = 0;
    while done < count
        invariant
            done <= count,
            out@ =~= old(out)@ + zeros(done as nat),
        decreases count - done,
    {
        out.push(0);
        done = done + 1;
    }
}

/// Appends a byte string.
pub fn put_slice(out: &mut Vec<u8>, bytes: &[u8])
    ensures
        final(out)@ == old(out)@ + bytes@,
{
    out.extend_from_slice(bytes);
    proof {
        assert(out@ =~= old(out)@ + bytes@);
    }
}

/// Reads `width` little-endian bytes at `offset`.
fn get(bytes: &[u8], offset: usize, width: usize) -> (value: u64)
    requires
        width <= 8,
        offset + width <= bytes@.len(),
    ensures
        value == le_field(bytes@, offset as int, width as int),
        value < le_limit(width as nat),
{
    let mut value: u64 = 0;
    let mut left: usize = width;
    proof {
        lemma_bytes_of_value(bytes@.subrange(offset as int, offset + width));
        assert(bytes@.subrange(offset + width, offset + width) =~= Seq::<u8>::empty());
    }
    while left > 0
        invariant
            left <= width <= 8,
            offset + width <= bytes@.len(),
            value == le_value(bytes@.subrange(offset + left, offset + width)),
        decreases left,
    {
        left = left - 1;
        assert(offset + left < bytes.len());
        let ghost tail = bytes@.subrange(offset + left, offset + width);
        proof {
            assert(tail.drop_first() =~= bytes@.subrange(offset + left + 1, offset + width));
            lemma_bytes_of_value(tail);
            lemma_limit_mono(tail.len(), 8);
            lemma_limits();
        }
        value = value * 256 + bytes[offset + left] as u64;
    }
    value
}

proof fn lemma_limit_mono(a: nat, b: nat)
    requires
        a <= b,
    ensures
        le_limit(a) <= le_limit(b),
        le_limit(a) > 0,
    decreases b,
{
    if b > a {
        lemma_limit_mono(a, (b - 1) as nat);
    } else if a > 0 {
        lemma_limit_mono((a - 1) as nat, (a - 1) as nat);
    }
}

pub fn get_u16(bytes: &[u8], offset: usize) -> (value: u16)
    requires
        offset + 2 <= bytes@.len(),
    ensures
        value == le_field(bytes@, offset as int, 2),
{
    proof { lemma_limits(); }
    get(bytes, offset, 2) as u16
}

pub fn get_u32(bytes: &[u8], offset: usize) -> (value: u32)
    requires
        offset + 4 <= bytes@.len(),
    ensures
        value == le_field(bytes@, offset as int, 4),
{
    proof { lemma_limits(); }
    get(bytes, offset, 4) as u32
}

pub fn get_u64(bytes: &[u8], offset: usize) -> (value: u64)
    requires
        offset + 8 <= bytes@.len(),
    ensures
        value == le_field(bytes@, offset as int, 8),
{
    get(bytes, offset, 8)
}

/// The bytes of `source` as an array.
pub fn to_array<const N: usize>(source: &[u8]) -> (out: [u8; N])
    requires
        source@.len() == N,
    ensures
        out@ == source@,
{
    let mut out: [u8; N] = [0u8; N];
    let mut i: usize = 0;
    while i < N
        invariant
            source@.len() == N,
            i <= N,
            forall|k: int| 0 <= k < i ==> out@[k] == source@[k],
        decreases N - i,
    {
        out[i] = source[i];
        i = i + 1;
    }
    proof {
        assert(out@ =~= source@);
    }
    out
}

/// Byte `k` of a number, from the least significant on, is its digit of that place in base
/// 256.
pub proof fn law_numbers_are_little_endian(value: nat, width: nat, k: nat)
    requires
        k < width,
    ensures
        le_bytes(value, width).len() == width,
        le_bytes(value, width)[k as int] as int == (value as int
            / vstd::arithmetic::power::pow(256, k)) % 256,
    decreases width,
{
    lemma_le_bytes_len(value, width);
    vstd::arithmetic::power::lemma_pow0(256);
    if k == 0 {
        assert(value as int / 1 == value);
    } else {
        let rest = le_bytes(value / 256, (width - 1) as nat);
        let lower = vstd::arithmetic::power::pow(256, (k - 1) as nat);
        law_numbers_are_little_endian(value / 256, (width - 1) as nat, (k - 1) as nat);
        lemma_le_bytes_len(value / 256, (width - 1) as nat);
        assert(le_bytes(value, width)[k as int] == rest[k - 1]);
        vstd::arithmetic::power::lemma_pow_positive(256, (k - 1) as nat);
        reveal(vstd::arithmetic::power::pow);
        assert(vstd::arithmetic::power::pow(256, k) == 256 * lower);
        assert((value / 256) as int == value as int / 256);
        vstd::arithmetic::div_mod::lemma_div_denominator(value as int, 256, lower);
    }
}

/// A number of two, four or eight bytes is read as the sum of its bytes, each times its
/// place; and what is read of a string is what its bytes add up to.
pub proof fn law_fields_add_up(bytes: Seq<u8>, offset: int)
    requires
        0 <= offset,
    ensures
        offset + 2 <= bytes.len() ==> le_field(bytes, offset, 2) == bytes[offset] + 0x100
            * bytes[offset + 1],
        offset + 4 <= bytes.len() ==> le_field(bytes, offset, 4) == bytes[offset] + 0x100
            * bytes[offset + 1] + 0x1_0000 * bytes[offset + 2] + 0x100_0000 * bytes[offset + 3],
        offset + 8 <= bytes.len() ==> le_field(bytes, offset, 8) == bytes[offset] + 0x100
            * bytes[offset + 1] + 0x1_0000 * bytes[offset + 2] + 0x100_0000 * bytes[offset + 3]
            + 0x1_0000_0000 * bytes[offset + 4] + 0x100_0000_0000 * bytes[offset + 5]
            + 0x1_0000_0000_0000 * bytes[offset + 6] + 0x100_0000_0000_0000 * bytes[offset + 7],
{
    if offset + 2 <= bytes.len() {
        lemma_pair(bytes.subrange(offset, offset + 2));
    }
    if offset + 4 <= bytes.len() {
        lemma_quad(bytes.subrange(offset, offset + 4));
    }
    if offset + 8 <= bytes.len() {
        let field = bytes.subrange(offset, offset + 8);
        lemma_quad(field.subrange(0, 4));
        lemma_quad(field.subrange(4, 8));
        let b1 = field.drop_first();
        let b2 = b1.drop_first();
        let b3 = b2.drop_first();
        let b4 = b3.drop_first();
        assert(b4 =~= field.subrange(4, 8));
        assert(le_value(field) == field[0] + 256 * le_value(b1));
        assert(le_value(b1) == field[1] + 256 * le_value(b2));
        assert(le_value(b2) == field[2] + 256 * le_value(b3));
        assert(le_value(b3) == field[3] + 256 * le_value(b4));
    }
}

proof fn lemma_pair(bytes: Seq<u8>)
    requires
        bytes.len() == 2,
    ensures
        le_value(bytes) == bytes[0] + 0x100 * bytes[1],
{
    let b1 = bytes.drop_first();
    let b2 = b1.drop_first();
    assert(le_value(b2) == 0);
    assert(le_value(b1) == bytes[1] + 256 * le_value(b2));
}

proof fn lemma_quad(bytes: Seq<u8>)
    requires
        bytes.len() == 4,
    ensures
        le_value(bytes) == bytes[0] + 0x100 * bytes[1] + 0x1_0000 * bytes[2] + 0x100_0000
            * bytes[3],
{
    let b1 = bytes.drop_first();
    let b2 = b1.drop_first();
    lemma_pair(b2);
    assert(le_value(b1) == bytes[1] + 256 * le_value(b2));
}

/// Zeros are as many bytes as asked for, and each is zero.
pub proof fn law_zeros_are_zero(count: nat, k: int)
    requires
        0 <= k < count,
    ensures
        zeros(count).len() == count,
        zeros(count)[k] == 0,
{
}

} // verus!
