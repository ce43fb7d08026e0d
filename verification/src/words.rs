//! Cutting a big-endian byte string into fixed-size words.
use vstd::arithmetic::div_mod::{
    lemma_div_denominator, lemma_div_multiples_vanish_fancy, lemma_mod_breakdown, lemma_mod_mod,
    lemma_mod_pos_bound,
};
use vstd::arithmetic::power2::{lemma2_to64, lemma_pow2_adds, lemma_pow2_pos, pow2};
use vstd::bits::{
    low_bits_mask, lemma_u32_low_bits_mask_is_mod, lemma_u32_shl_is_mul, lemma_u32_shr_is_div,
};
use vstd::prelude::*;

verus! {

/// The number that a byte string denotes, most significant byte first.
pub open spec fn be_value(bytes: Seq<u8>) -> nat
    decreases bytes.len(),
{
    if bytes.len() == 0 {
        0
    } else {
        be_value(bytes.drop_last()) * 256 + bytes.last() as nat
    }
}

/// Word `word_idx` of the number that `bytes` denotes, when the number is
/// cut into words of `word_size` bits from its least significant bit up.
pub open spec fn word_at(bytes: Seq<u8>, word_idx: nat, word_size: nat) -> nat {
    (be_value(bytes) / pow2(word_idx * word_size)) % pow2(word_size)
}

/// The byte `k` places above the least significant one, zero where the
/// string has no such byte.
pub open spec fn byte_from_low(bytes: Seq<u8>, k: int) -> nat {
    if 0 <= k < bytes.len() {
        bytes[bytes.len() - 1 - k] as nat
    } else {
        0
    }
}

/// The number that is left of `bytes` without its `k` least significant
/// bytes.
pub open spec fn high_part(bytes: Seq<u8>, k: nat) -> nat {
    if k <= bytes.len() {
        be_value(bytes.take(bytes.len() - k))
    } else {
        0
    }
}

/// Taking one byte more off the low end divides by 256.
pub proof fn lemma_high_part_step(bytes: Seq<u8>, k: nat)
    ensures
        high_part(bytes, k) == 256 * high_part(bytes, k + 1) + byte_from_low(bytes, k as int),
{
    if k < bytes.len() {
        let kept = bytes.take(bytes.len() - k);
        assert(kept.drop_last() =~= bytes.take(bytes.len() - (k + 1)));
    } else if k == bytes.len() {
        assert(bytes.take(0).len() == 0);
    }
}

/// Taking `k` bytes off the low end divides by `2^(8k)`.
pub proof fn lemma_high_part_is_quotient(bytes: Seq<u8>, k: nat)
    ensures
        high_part(bytes, k) == be_value(bytes) / pow2(8 * k),
    decreases k,
{
    lemma2_to64();
    if k == 0 {
        assert(bytes.take(bytes.len() as int) =~= bytes);
        assert(pow2(8 * k) == 1);
    } else {
        let before = (k - 1) as nat;
        let value = be_value(bytes) as int;
        let low = pow2(8 * before) as int;
        lemma_high_part_is_quotient(bytes, before);
        lemma_high_part_step(bytes, before);
        lemma_pow2_pos(8 * before);
        lemma_pow2_adds(8 * before, 8);
        assert(8 * before + 8 == 8 * k);
        assert(pow2(8 * k) == low * 256);
        lemma_div_denominator(value, low, 256);
        assert(value / (low * 256) == (value / low) / 256);
        lemma_div_multiples_vanish_fancy(
            high_part(bytes, k) as int,
            byte_from_low(bytes, before as int) as int,
            256,
        );
        assert((256 * high_part(bytes, k) + byte_from_low(bytes, before as int)) / 256
            == high_part(bytes, k));
    }
}

/// A word of at most 16 bits that begins in byte `k` lies within the three
/// bytes from `k` on.
pub proof fn lemma_word_in_window(value: nat, shift: nat, word_size: nat)
    requires
        shift < 8,
        word_size <= 16,
    ensures
        (value / pow2(shift)) % pow2(word_size) == ((value % 0x100_0000) / pow2(shift)) % pow2(
            word_size,
        ),
{
    let rest = (24 - shift - word_size) as nat;
    let p = pow2(shift) as int;
    let m = pow2(word_size) as int;
    let c = pow2(rest) as int;
    lemma2_to64();
    lemma_pow2_pos(shift);
    lemma_pow2_pos(word_size);
    lemma_pow2_pos(rest);
    lemma_pow2_adds(word_size, rest);
    lemma_pow2_adds(shift, word_size + rest);
    assert(p * (m * c) == 0x100_0000);
    lemma_mod_breakdown(value as int, p, m * c);
    lemma_mod_pos_bound(value as int, p);
    lemma_div_multiples_vanish_fancy((value as int / p) % (m * c), value as int % p, p);
    lemma_mod_mod(value as int / p, m, c);
}

/// The number that the first `count` words of `bytes` make up, each word
/// put back at the place it was cut from.
pub open spec fn recomposed(bytes: Seq<u8>, count: nat, word_size: nat) -> nat
    decreases count,
{
    if count == 0 {
        0
    } else {
        let last = (count - 1) as nat;
        recomposed(bytes, last, word_size) + word_at(bytes, last, word_size) * pow2(
            last * word_size,
        )
    }
}

/// Cutting loses nothing below the last word: the first `count` words make
/// up the number that `bytes` denotes, reduced to its `count * word_size`
/// least significant bits.
pub proof fn lemma_words_recompose(bytes: Seq<u8>, count: nat, word_size: nat)
    ensures
        recomposed(bytes, count, word_size) == be_value(bytes) % pow2(count * word_size),
    decreases count,
{
    lemma2_to64();
    if count > 0 {
        let last = (count - 1) as nat;
        let value = be_value(bytes) as int;
        let low = pow2(last * word_size) as int;
        let word = pow2(word_size) as int;
        lemma_words_recompose(bytes, last, word_size);
        lemma_pow2_pos(last * word_size);
        lemma_pow2_pos(word_size);
        lemma_pow2_adds(last * word_size, word_size);
        assert(last * word_size + word_size == count * word_size) by (nonlinear_arith)
            requires
                last + 1 == count,
        ;
        lemma_mod_breakdown(value, low, word);
        assert(low * ((value / low) % word) == ((value / low) % word) * low) by (nonlinear_arith);
    } else {
        assert(count * word_size == 0) by (nonlinear_arith)
            requires
                count == 0,
        ;
    }
}

/// The byte `k` places above the least significant one.
fn low_byte(input: &Vec<u8>, k: usize) -> (byte: u32)
    ensures
        byte == byte_from_low(input@, k as int),
{
    if k < input.len() {
        input[input.len() - 1 - k] as u32
    } else {
        0
    }
}

/// Returns word `word_idx` of the number that `input` denotes, most
/// significant byte first: bits `word_idx * word_size` and up, `word_size`
/// of them, counted from the least significant bit.  Bits beyond the most
/// significant byte count as zero.
pub fn extract_word_from_bytes_le(input: &Vec<u8>, word_idx: usize, word_size: usize) -> (word:
    u16)
    requires
        word_size <= 16,
        word_idx * word_size <= usize::MAX,
    ensures
        word == word_at(input@, word_idx as nat, word_size as nat),
{
    let low_bit = word_idx * word_size;
    let skipped = low_bit / 8;
    let shift = (low_bit % 8) as u32;
    let window = low_byte(input, skipped) + 0x100 * low_byte(input, skipped + 1) + 0x1_0000
        * low_byte(input, skipped + 2);
    let size = word_size as u32;
    proof {
        let bytes = input@;
        let value = be_value(bytes);
        let k = skipped as nat;
        lemma2_to64();
        lemma_high_part_is_quotient(bytes, k);
        lemma_high_part_step(bytes, k);
        lemma_high_part_step(bytes, k + 1);
        lemma_high_part_step(bytes, k + 2);
        assert(high_part(bytes, k) % 0x100_0000 == window);
        lemma_pow2_pos(8 * k);
        lemma_pow2_pos(shift as nat);
        lemma_pow2_adds(8 * k, shift as nat);
        lemma_div_denominator(value as int, pow2(8 * k) as int, pow2(shift as nat) as int);
        lemma_word_in_window(high_part(bytes, k), shift as nat, word_size as nat);
        assert(word_at(bytes, word_idx as nat, word_size as nat) == (window as nat / pow2(
            shift as nat,
        )) % pow2(word_size as nat));
        lemma_u32_shr_is_div(window, shift);
        lemma_pow2_pos(word_size as nat);
        lemma_u32_shl_is_mul(1, size);
        lemma_u32_low_bits_mask_is_mod(window >> shift, word_size as nat);
        assert(((1u32 << size) - 1) as u32 == low_bits_mask(word_size as nat) as u32);
    }
    let mask = (1u32 << size) - 1;
    ((window >> shift) & mask) as u16
}

} // verus!
