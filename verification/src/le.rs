//! Little-endian integers as byte sequences.

use vstd::prelude::*;

verus! {

/// 256 to the power `n`: how many values `n` bytes can tell apart.
pub open spec fn pow256(n: nat) -> nat
    decreases n,
{
    if n == 0 {
        1
    } else {
        256 * pow256((n - 1) as nat)
    }
}

/// The `n` low bytes of `v`, least significant first.
pub open spec fn le_bytes(v: nat, n: nat) -> Seq<u8>
    decreases n,
{
    if n == 0 {
        Seq::empty()
    } else {
        seq![(v % 256) as u8] + le_bytes(v / 256, (n - 1) as nat)
    }
}

/// The number that `s` stands for, least significant byte first.
pub open spec fn le_value(s: Seq<u8>) -> nat
    decreases s.len(),
{
    if s.len() == 0 {
        0
    } else {
        s[0] as nat + 256 * le_value(s.drop_first())
    }
}

/// The two's complement bits of `v`, read as an unsigned number.
pub open spec fn i32_bits(v: i32) -> nat {
    if v >= 0 {
        v as nat
    } else {
        (v + 0x1_0000_0000) as nat
    }
}

/// The signed number whose two's complement bits are `bits`.
pub open spec fn i32_of_bits(bits: nat) -> int {
    if bits < 0x8000_0000 {
        bits as int
    } else {
        bits - 0x1_0000_0000
    }
}

pub proof fn lemma_pow256_values()
    ensures
        pow256(0) == 1,
        pow256(1) == 0x100,
        pow256(2) == 0x1_0000,
        pow256(4) == 0x1_0000_0000,
        pow256(8) == 0x1_0000_0000_0000_0000,
{
    reveal_with_fuel(pow256, 9);
}

pub proof fn lemma_le_bytes_len(v: nat, n: nat)
    ensures
        le_bytes(v, n).len() == n,
    decreases n,
{
    if n > 0 {
        lemma_le_bytes_len(v / 256, (n - 1) as nat);
    }
}

pub proof fn lemma_le_value_bound(s: Seq<u8>)
    ensures
        le_value(s) < pow256(s.len()),
    decreases s.len(),
{
    if s.len() > 0 {
        lemma_le_value_bound(s.drop_first());
    }
}

/// Writing a number that fits and reading it back gives the number.
pub proof fn lemma_value_of_bytes(v: nat, n: nat)
    requires
        v < pow256(n),
    ensures
        le_value(le_bytes(v, n)) == v,
    decreases n,
{
    if n > 0 {
        lemma_value_of_bytes(v / 256, (n - 1) as nat);
        assert(le_bytes(v, n).drop_first() =~= le_bytes(v / 256, (n - 1) as nat));
    }
}

/// Reading bytes as a number and writing it down again gives the bytes.
pub proof fn lemma_bytes_of_value(s: Seq<u8>)
    ensures
        le_bytes(le_value(s), s.len()) == s,
    decreases s.len(),
{
    if s.len() > 0 {
        let rest = s.drop_first();
        lemma_bytes_of_value(rest);
        assert(le_value(s) / 256 == le_value(rest));
        assert(le_value(s) % 256 == s[0]);
        assert(seq![s[0]] + rest =~= s);
    } else {
        assert(s =~= Seq::<u8>::empty());
    }
}

/// A number's bits fit in four bytes, and give the number back.
pub proof fn lemma_i32_bits(v: i32)
    ensures
        i32_bits(v) < 0x1_0000_0000,
        i32_of_bits(i32_bits(v)) == v,
{
}

/// Splits the last byte off a value.
proof fn lemma_le_value_push(s: Seq<u8>, b: u8)
    ensures
        le_value(s.push(b)) == le_value(s) + pow256(s.len()) * b,
    decreases s.len(),
{
    if s.len() == 0 {
        assert(s.push(b).drop_first() =~= Seq::<u8>::empty());
        assert(pow256(0) == 1);
        assert(1 * b == b);
        assert(le_value(s.push(b).drop_first()) == 0);
    } else {
        assert(s.push(b).drop_first() =~= s.drop_first().push(b));
        lemma_le_value_push(s.drop_first(), b);
        let p = pow256((s.len() - 1) as nat);
        assert(256 * (p * b) == (256 * p) * b) by (nonlinear_arith);
    }
}

/// Appends the `n` low bytes of `v`, least significant first.
fn put_le(out: &mut Vec<u8>, v: u64, n: usize)
    ensures
        final(out)@ == old(out)@ + le_bytes(v as nat, n as nat),
{
    let mut rest: u64 = v;
    let mut left: usize = n;
    assert(out@ + le_bytes(v as nat, n as nat) =~= old(out)@ + le_bytes(v as nat, n as nat));
    while left > 0
        invariant
            out@ + le_bytes(rest as nat, left as nat) == old(out)@ + le_bytes(v as nat, n as nat),
        decreases left,
    {
        let low: u8 = (rest % 256) as u8;
        let ghost before = out@;
        out.push(low);
        assert(before + le_bytes(rest as nat, left as nat) =~= out@ + le_bytes(
            rest as nat / 256,
            (left - 1) as nat,
        ));
        rest = rest / 256;
        left = left - 1;
    }
    assert(out@ + le_bytes(rest as nat, 0) =~= out@);
}

/// Appends `v` as two bytes.
pub fn put_u16(out: &mut Vec<u8>, v: u16)
    ensures
        final(out)@ == old(out)@ + le_bytes(v as nat, 2),
{
    put_le(out, v as u64, 2);
}

/// Appends `v` as four bytes.
pub fn put_u32(out: &mut Vec<u8>, v: u32)
    ensures
        final(out)@ == old(out)@ + le_bytes(v as nat, 4),
{
    put_le(out, v as u64, 4);
}

/// Appends `v` as eight bytes.
pub fn put_u64(out: &mut Vec<u8>, v: u64)
    ensures
        final(out)@ == old(out)@ + le_bytes(v as nat, 8),
{
    put_le(out, v, 8);
}

/// The two's complement bits of `v`.
pub fn bits_of_i32(v: i32) -> (bits: u32)
    ensures
        bits == i32_bits(v),
{
    let bits: u32 = #[verifier::truncate] (v as u32);
    assert(v >= 0 ==> v as u32 == v) by (bit_vector);
    assert(v < 0 ==> v as u32 == v + 0x1_0000_0000) by (bit_vector);
    bits
}

/// The signed number with the two's complement bits `bits`.
pub fn i32_from_bits(bits: u32) -> (v: i32)
    ensures
        v == i32_of_bits(bits as nat),
        i32_bits(v) == bits,
{
    let v: i32 = #[verifier::truncate] (bits as i32);
    assert(bits < 0x8000_0000 ==> bits as i32 == bits) by (bit_vector);
    assert(bits >= 0x8000_0000 ==> bits as i32 == bits - 0x1_0000_0000) by (bit_vector);
    v
}

/// The number that at most eight bytes stand for.
pub fn get_le(s: &[u8]) -> (v: u64)
    requires
        s@.len() <= 8,
    ensures
        v == le_value(s@),
        v < pow256(s@.len()),
{
    let mut v: u64 = 0;
    let mut unit: u64 = 1;
    let mut i: usize = 0;
    proof {
        lemma_pow256_values();
    }
    while i < s.len()
        invariant
            i <= s@.len() <= 8,
            v == le_value(s@.take(i as int)),
            i < s@.len() ==> unit == pow256(i as nat),
        decreases s@.len() - i,
    {
        proof {
            lemma_le_value_push(s@.take(i as int), s@[i as int]);
            assert(s@.take(i as int).push(s@[i as int]) =~= s@.take(i + 1));
            lemma_le_value_bound(s@.take(i + 1));
            reveal_with_fuel(pow256, 9);
        }
        v = v + unit * (s[i] as u64);
        i = i + 1;
        if i < s.len() {
            unit = unit * 256;
        }
    }
    proof {
        assert(s@.take(i as int) =~= s@);
        lemma_le_value_bound(s@);
    }
    v
}

/// Two bytes are a number with the low one first.
pub proof fn law_u16_is_little_endian(v: nat, s: Seq<u8>)
    requires
        v < 0x1_0000,
        s.len() == 2,
    ensures
        ({
            let b = le_bytes(v, 2);
            b.len() == 2 && v == b[0] + 0x100 * b[1]
        }),
        le_value(s) == s[0] + 0x100 * s[1],
{
    lemma_pow256_values();
    lemma_le_bytes_len(v, 2);
    lemma_value_of_bytes(v, 2);
    reveal_with_fuel(le_value, 3);
}

/// Four bytes are a number with the low one first.
pub proof fn law_u32_is_little_endian(v: nat, s: Seq<u8>)
    requires
        v < 0x1_0000_0000,
        s.len() == 4,
    ensures
        ({
            let b = le_bytes(v, 4);
            b.len() == 4 && v == b[0] + 0x100 * b[1] + 0x1_0000 * b[2] + 0x100_0000 * b[3]
        }),
        le_value(s) == s[0] + 0x100 * s[1] + 0x1_0000 * s[2] + 0x100_0000 * s[3],
{
    lemma_pow256_values();
    lemma_le_bytes_len(v, 4);
    lemma_value_of_bytes(v, 4);
    reveal_with_fuel(le_value, 5);
}

/// Eight bytes are a number with the four low ones first.
pub proof fn law_u64_is_little_endian(v: nat, s: Seq<u8>)
    requires
        v < 0x1_0000_0000_0000_0000,
        s.len() == 8,
    ensures
        ({
            let b = le_bytes(v, 8);
            &&& b.len() == 8
            &&& v == b[0] + 0x100 * b[1] + 0x1_0000 * b[2] + 0x100_0000 * b[3] + 0x1_0000_0000 * (
            b[4] + 0x100 * b[5] + 0x1_0000 * b[6] + 0x100_0000 * b[7])
        }),
        le_value(s) == s[0] + 0x100 * s[1] + 0x1_0000 * s[2] + 0x100_0000 * s[3] + 0x1_0000_0000 * (
        s[4] + 0x100 * s[5] + 0x1_0000 * s[6] + 0x100_0000 * s[7]),
{
    lemma_pow256_values();
    lemma_le_bytes_len(v, 8);
    lemma_value_of_bytes(v, 8);
    reveal_with_fuel(le_value, 9);
}

/// The bits of a signed number differ from it by a whole turn of 32 bits, if at
/// all; and so does a number from its bits.
pub proof fn law_signed_numbers_wrap_by_one_turn(v: i32, bits: nat)
    requires
        bits < 0x1_0000_0000,
    ensures
        0 <= i32_bits(v) < 0x1_0000_0000,
        i32_bits(v) == v || i32_bits(v) == v + 0x1_0000_0000,
        i32::MIN <= i32_of_bits(bits) <= i32::MAX,
        i32_of_bits(bits) == bits || i32_of_bits(bits) == bits - 0x1_0000_0000,
{
}

} // verus!
