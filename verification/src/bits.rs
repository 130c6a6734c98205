//! Bit sequences, most significant bit first, and how bytes hold them.

use vstd::prelude::*;

verus! {

/// The numeric value of one bit.
pub open spec fn bit_value(b: bool) -> int {
    if b {
        1
    } else {
        0
    }
}

/// The bit at index `i` of a stream that yields zeros past its end.
pub open spec fn bit_at(bits: Seq<bool>, i: int) -> bool {
    0 <= i < bits.len() && bits[i]
}

/// `n` copies of the bit `b`.
pub open spec fn repeat(b: bool, n: nat) -> Seq<bool> {
    Seq::new(n, |i: int| b)
}

/// The number spelled by the `len` bits from index `start` on, most
/// significant first, of a stream that yields zeros past its end.
pub open spec fn window_value(bits: Seq<bool>, start: int, len: nat) -> int
    decreases len,
{
    if len == 0 {
        0
    } else {
        2 * window_value(bits, start, (len - 1) as nat) + bit_value(
            bit_at(bits, start + len - 1),
        )
    }
}

/// Bit `i` of the `n` lowest bits of `v`, counted from the most significant of them.
pub open spec fn low_bit(v: u8, n: int, i: int) -> bool {
    ((v >> ((n - 1 - i) as u8)) & 1u8) == 1u8
}

/// The `n` lowest bits of `v`, most significant first.
pub open spec fn low_bits(v: u8, n: int) -> Seq<bool> {
    Seq::new(n as nat, |i: int| low_bit(v, n, i))
}

/// The eight bits of a byte, most significant first.
pub open spec fn byte_bits(b: u8) -> Seq<bool> {
    low_bits(b, 8)
}

/// The byte whose bits, most significant first, are `s[0]` to `s[7]`.
pub open spec fn pack(s: Seq<bool>) -> u8 {
    (128 * bit_value(s[0]) + 64 * bit_value(s[1]) + 32 * bit_value(s[2]) + 16 * bit_value(s[3])
        + 8 * bit_value(s[4]) + 4 * bit_value(s[5]) + 2 * bit_value(s[6]) + bit_value(
        s[7],
    )) as u8
}

/// The bits of a byte sequence, byte after byte.
pub open spec fn bytes_bits(bytes: Seq<u8>) -> Seq<bool> {
    Seq::new(8 * bytes.len(), |i: int| low_bit(bytes[i / 8], 8, i % 8))
}

proof fn lemma_byte_from_bits(b: u8)
    by (bit_vector)
    ensures
        b == 128u8 * ((b >> 7u8) & 1u8) + 64u8 * ((b >> 6u8) & 1u8) + 32u8 * ((b >> 5u8) & 1u8)
            + 16u8 * ((b >> 4u8) & 1u8) + 8u8 * ((b >> 3u8) & 1u8) + 4u8 * ((b >> 2u8) & 1u8) + 2u8
            * ((b >> 1u8) & 1u8) + ((b >> 0u8) & 1u8),
        (b >> 7u8) & 1u8 <= 1,
        (b >> 6u8) & 1u8 <= 1,
        (b >> 5u8) & 1u8 <= 1,
        (b >> 4u8) & 1u8 <= 1,
        (b >> 3u8) & 1u8 <= 1,
        (b >> 2u8) & 1u8 <= 1,
        (b >> 1u8) & 1u8 <= 1,
        (b >> 0u8) & 1u8 <= 1,
{
}

/// Packing the bits of a byte gives the byte back.
pub proof fn lemma_pack_byte_bits(b: u8)
    ensures
        pack(byte_bits(b)) == b,
{
    lemma_byte_from_bits(b);
    let s = byte_bits(b);
    assert(s[0] == low_bit(b, 8, 0) && s[1] == low_bit(b, 8, 1) && s[2] == low_bit(b, 8, 2) && s[3]
        == low_bit(b, 8, 3));
    assert(s[4] == low_bit(b, 8, 4) && s[5] == low_bit(b, 8, 5) && s[6] == low_bit(b, 8, 6) && s[7]
        == low_bit(b, 8, 7));
}

proof fn lemma_bits_of_sum(b0: u8, b1: u8, b2: u8, b3: u8, b4: u8, b5: u8, b6: u8, b7: u8)
    by (bit_vector)
    requires
        b0 <= 1,
        b1 <= 1,
        b2 <= 1,
        b3 <= 1,
        b4 <= 1,
        b5 <= 1,
        b6 <= 1,
        b7 <= 1,
    ensures
        ({
            let v: u8 = (128u8 * b0 + 64u8 * b1 + 32u8 * b2 + 16u8 * b3 + 8u8 * b4 + 4u8 * b5 + 2u8
                * b6 + b7) as u8;
            &&& 128u8 * b0 + 64u8 * b1 + 32u8 * b2 + 16u8 * b3 + 8u8 * b4 + 4u8 * b5 + 2u8 * b6
                + b7 < 256
            &&& (v >> 7u8) & 1u8 == b0
            &&& (v >> 6u8) & 1u8 == b1
            &&& (v >> 5u8) & 1u8 == b2
            &&& (v >> 4u8) & 1u8 == b3
            &&& (v >> 3u8) & 1u8 == b4
            &&& (v >> 2u8) & 1u8 == b5
            &&& (v >> 1u8) & 1u8 == b6
            &&& (v >> 0u8) & 1u8 == b7
        }),
{
}

/// The bits of a packed byte are the bits that were packed.
pub proof fn lemma_byte_bits_pack(s: Seq<bool>)
    requires
        s.len() == 8,
    ensures
        byte_bits(pack(s)) == s,
{
    lemma_bits_of_sum(
        bit_value(s[0]) as u8,
        bit_value(s[1]) as u8,
        bit_value(s[2]) as u8,
        bit_value(s[3]) as u8,
        bit_value(s[4]) as u8,
        bit_value(s[5]) as u8,
        bit_value(s[6]) as u8,
        bit_value(s[7]) as u8,
    );
    assert(byte_bits(pack(s)) =~= s);
}

proof fn lemma_shift_in_bit(v: u8, bit: u8, hi: u8, lo: u8)
    by (bit_vector)
    requires
        bit <= 1,
        lo < 7,
        hi == lo + 1,
    ensures
        (((v << 1u8) | bit) >> hi) & 1u8 == (v >> lo) & 1u8,
        (((v << 1u8) | bit) >> 0u8) & 1u8 == bit,
{
}

/// Shifting a bit in from the right appends it to the low bits.
pub proof fn lemma_low_bits_push(v: u8, n: int, bit: u8)
    requires
        0 <= n < 8,
        bit <= 1,
    ensures
        low_bits((v << 1u8) | bit, n + 1) == low_bits(v, n).push(bit == 1),
{
    let w: u8 = (v << 1u8) | bit;
    let m: int = n + 1;
    let pushed = low_bits(v, n).push(bit == 1);
    assert forall|i: int| 0 <= i < m implies #[trigger] low_bit(w, m, i) == pushed[i] by {
        if i < n {
            lemma_shift_in_bit(v, bit, (n - i) as u8, (n - 1 - i) as u8);
        } else {
            lemma_shift_in_bit(v, bit, 1, 0);
        }
    }
    assert(low_bits(w, n + 1) =~= low_bits(v, n).push(bit == 1));
}

proof fn lemma_shift_up_bit(v: u8, pad: u8, hi: u8, lo: u8)
    by (bit_vector)
    requires
        pad < 8,
        hi < 8,
    ensures
        hi >= pad && lo == hi - pad ==> ((v << pad) >> hi) & 1u8 == (v >> lo) & 1u8,
        hi < pad ==> ((v << pad) >> hi) & 1u8 == 0,
{
}

/// Shifting the `n` low bits to the top of the byte pads them with zeros.
pub proof fn lemma_low_bits_pad(v: u8, n: int)
    requires
        0 < n <= 8,
    ensures
        byte_bits(v << ((8 - n) as u8)) == low_bits(v, n) + repeat(false, (8 - n) as nat),
{
    let w: u8 = v << ((8 - n) as u8);
    let padded = low_bits(v, n) + repeat(false, (8 - n) as nat);
    assert forall|i: int| 0 <= i < 8 implies #[trigger] low_bit(w, 8, i) == padded[i] by {
        lemma_shift_up_bit(v, (8 - n) as u8, (7 - i) as u8, (n - 1 - i) as u8);
    }
    assert(byte_bits(w) =~= low_bits(v, n) + repeat(false, (8 - n) as nat));
}

/// Appending a byte appends its eight bits.
pub proof fn lemma_bytes_bits_push(bytes: Seq<u8>, b: u8)
    ensures
        bytes_bits(bytes.push(b)) == bytes_bits(bytes) + byte_bits(b),
{
    assert(bytes_bits(bytes.push(b)) =~= bytes_bits(bytes) + byte_bits(b));
}

/// The bits of two byte sequences joined are the bits of the first, then
/// those of the second.
pub proof fn lemma_bytes_bits_concat(a: Seq<u8>, b: Seq<u8>)
    ensures
        bytes_bits(a + b) == bytes_bits(a) + bytes_bits(b),
{
    assert(bytes_bits(a + b) =~= bytes_bits(a) + bytes_bits(b));
}

/// The first bit of a window weighs two to the number of bits after it; and
/// a window of `len` bits spells a number below `2^len`.
pub proof fn lemma_window_split_first(bits: Seq<bool>, start: int, len: nat)
    ensures
        window_value(bits, start, len + 1) == (if bit_at(bits, start) {
            vstd::arithmetic::power2::pow2(len) as int
        } else {
            0
        }) + window_value(bits, start + 1, len),
        0 <= window_value(bits, start, len) < vstd::arithmetic::power2::pow2(len),
    decreases len,
{
    vstd::arithmetic::power2::lemma_pow2_unfold(len + 1);
    if len == 0 {
        assert(window_value(bits, start, 0) == 0);
        assert(window_value(bits, start + 1, 0) == 0);
        assert(window_value(bits, start, 1) == 2 * window_value(bits, start, 0) + bit_value(
            bit_at(bits, start),
        ));
        assert(vstd::arithmetic::power2::pow2(0) == 1) by {
            vstd::arithmetic::power2::lemma2_to64();
        }
    } else {
        lemma_window_split_first(bits, start, (len - 1) as nat);
        lemma_window_split_first(bits, start + 1, (len - 1) as nat);
        vstd::arithmetic::power2::lemma_pow2_unfold(len);
    }
}

} // verus!
