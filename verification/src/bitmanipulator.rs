//! The bit buffer: packs single bits into bytes, and serves the bits of its
//! bytes one after the other.

use vstd::prelude::*;
use vstd::arithmetic::power2::{
    lemma2_to64, lemma_pow2_strictly_increases, lemma_pow2_unfold, pow2,
};
use vstd::bits::lemma_u8_shl_is_mul;
use crate::bits::{
    bit_at, bit_value, bytes_bits, lemma_byte_bits_pack, lemma_bytes_bits_push,
    lemma_low_bits_pad, lemma_low_bits_push, lemma_pack_byte_bits, low_bit, low_bits, pack,
    repeat,
};

verus! {

/// What a bit buffer holds: the bytes completed so far, the bits staged for
/// the next byte, and the read cursor, counted in bits from the first byte.
pub struct BitBuffer {
    pub bytes: Seq<u8>,
    pub staged: Seq<bool>,
    pub cursor: nat,
}

impl BitBuffer {
    /// A buffer with no bytes, no staged bits and the cursor at the start.
    pub open spec fn empty() -> BitBuffer {
        BitBuffer { bytes: Seq::empty(), staged: Seq::empty(), cursor: 0 }
    }

    /// At most seven bits wait for their byte.
    pub open spec fn wf(self) -> bool {
        self.staged.len() <= 7
    }

    /// The bits that reading can reach: those of the completed bytes.
    pub open spec fn stored(self) -> Seq<bool> {
        bytes_bits(self.bytes)
    }

    /// Every bit written so far, staged ones included.
    pub open spec fn written(self) -> Seq<bool> {
        bytes_bits(self.bytes) + self.staged
    }

    /// The zero bits that a flush adds to fill the last byte.
    pub open spec fn padding(self) -> nat {
        if self.staged.len() == 0 {
            0
        } else {
            (8 - self.staged.len()) as nat
        }
    }

    /// The buffer after one bit was written.
    pub open spec fn write_bit(self, b: bool) -> BitBuffer {
        if self.staged.len() == 7 {
            BitBuffer {
                bytes: self.bytes.push(pack(self.staged.push(b))),
                staged: Seq::empty(),
                cursor: self.cursor,
            }
        } else {
            BitBuffer { bytes: self.bytes, staged: self.staged.push(b), cursor: self.cursor }
        }
    }

    /// The buffer after the bits were written, first to last.
    pub open spec fn write_bits(self, bits: Seq<bool>) -> BitBuffer
        decreases bits.len(),
    {
        if bits.len() == 0 {
            self
        } else {
            self.write_bits(bits.drop_last()).write_bit(bits.last())
        }
    }

    /// The buffer after a flush: staged bits, if any, leave as one byte,
    /// padded with zeros in its low bits.
    pub open spec fn flush(self) -> BitBuffer {
        if self.staged.len() == 0 {
            self
        } else {
            BitBuffer {
                bytes: self.bytes.push(pack(self.staged + repeat(false, self.padding()))),
                staged: Seq::empty(),
                cursor: self.cursor,
            }
        }
    }

    /// The bit that the next read delivers: zero once the cursor has passed
    /// the last byte.
    pub open spec fn next_bit(self) -> bool {
        bit_at(self.stored(), self.cursor as int)
    }

    /// The buffer after one read: the cursor moves unless it is past the bytes.
    pub open spec fn advance(self) -> BitBuffer {
        if self.cursor < 8 * self.bytes.len() {
            BitBuffer { bytes: self.bytes, staged: self.staged, cursor: self.cursor + 1 }
        } else {
            self
        }
    }

    /// The buffer after `n` reads: the cursor has moved `n` bits on, but not
    /// past the end of the bytes, and not at all if it was there already.
    pub open spec fn advance_by(self, n: nat) -> BitBuffer {
        let end = 8 * self.bytes.len();
        let cursor = if self.cursor >= end {
            self.cursor
        } else if self.cursor + n <= end {
            self.cursor + n
        } else {
            end
        };
        BitBuffer { bytes: self.bytes, staged: self.staged, cursor }
    }

    /// The bits that `n` reads in a row deliver.
    pub open spec fn read_bits(self, n: nat) -> Seq<bool>
        decreases n,
    {
        if n == 0 {
            Seq::empty()
        } else {
            seq![self.next_bit()] + self.advance().read_bits((n - 1) as nat)
        }
    }
}

/// A second flush changes nothing.
pub proof fn lemma_flush_idempotent(s: BitBuffer)
    ensures
        s.flush().flush() == s.flush(),
{
}

/// A write appends its bit to what was written, and moves nothing else.
pub proof fn lemma_write_bit_appends(s: BitBuffer, b: bool)
    requires
        s.wf(),
    ensures
        s.write_bit(b).wf(),
        s.write_bit(b).written() == s.written().push(b),
        s.write_bit(b).cursor == s.cursor,
{
    if s.staged.len() == 7 {
        let full = s.staged.push(b);
        lemma_byte_bits_pack(full);
        lemma_bytes_bits_push(s.bytes, pack(full));
        assert(s.write_bit(b).written() =~= s.written().push(b));
    } else {
        assert(s.write_bit(b).written() =~= s.written().push(b));
    }
}

/// Writing a sequence of bits appends the sequence.
pub proof fn lemma_write_bits_appends(s: BitBuffer, bits: Seq<bool>)
    requires
        s.wf(),
    ensures
        s.write_bits(bits).wf(),
        s.write_bits(bits).written() == s.written() + bits,
        s.write_bits(bits).cursor == s.cursor,
    decreases bits.len(),
{
    if bits.len() == 0 {
        assert(s.written() + bits =~= s.written());
    } else {
        lemma_write_bits_appends(s, bits.drop_last());
        lemma_write_bit_appends(s.write_bits(bits.drop_last()), bits.last());
        assert((s.written() + bits.drop_last()).push(bits.last()) =~= s.written() + bits);
    }
}

/// Writing two sequences in turn writes their concatenation.
pub proof fn lemma_write_bits_concat(s: BitBuffer, a: Seq<bool>, b: Seq<bool>)
    ensures
        s.write_bits(a).write_bits(b) == s.write_bits(a + b),
    decreases b.len(),
{
    if b.len() == 0 {
        assert(a + b =~= a);
    } else {
        lemma_write_bits_concat(s, a, b.drop_last());
        assert((a + b).drop_last() =~= a + b.drop_last());
        assert((a + b).last() == b.last());
    }
}

/// A flush appends the padding zeros, leaves nothing staged and keeps the
/// completed bytes in place.
pub proof fn lemma_flush_pads(s: BitBuffer)
    requires
        s.wf(),
    ensures
        s.flush().staged.len() == 0,
        s.flush().stored() == s.written() + repeat(false, s.padding()),
        s.flush().cursor == s.cursor,
{
    if s.staged.len() == 0 {
        assert(s.flush().stored() =~= s.written() + repeat(false, s.padding()));
    } else {
        let full = s.staged + repeat(false, s.padding());
        lemma_byte_bits_pack(full);
        lemma_bytes_bits_push(s.bytes, pack(full));
        assert(s.flush().stored() =~= s.written() + repeat(false, s.padding()));
    }
}

/// `n` reads deliver the stored bits from the cursor on, and zeros past the
/// last byte.
pub proof fn lemma_read_bits(s: BitBuffer, n: nat)
    ensures
        s.read_bits(n) == Seq::new(n, |i: int| bit_at(s.stored(), s.cursor + i)),
    decreases n,
{
    let expected = Seq::new(n, |i: int| bit_at(s.stored(), s.cursor + i));
    if n == 0 {
        assert(s.read_bits(n) =~= expected);
    } else {
        let t = s.advance();
        lemma_read_bits(t, (n - 1) as nat);
        assert(t.stored() == s.stored());
        assert forall|i: int| 0 <= i < n implies s.read_bits(n)[i] == expected[i] by {
            if i > 0 {
                assert(s.read_bits(n)[i] == t.read_bits((n - 1) as nat)[i - 1]);
                if s.cursor < 8 * s.bytes.len() {
                    assert(t.cursor + (i - 1) == s.cursor + i);
                } else {
                    assert(!bit_at(s.stored(), s.cursor + i));
                    assert(!bit_at(t.stored(), t.cursor + (i - 1)));
                }
            }
        }
        assert(s.read_bits(n) =~= expected);
    }
}

/// After `n` reads the next read delivers the stored bit `n` places from
/// where the cursor started, or zero past the end; and one more read makes
/// `n + 1` reads.
pub proof fn lemma_advance_by(s: BitBuffer, n: nat)
    ensures
        s.advance_by(0) == s,
        s.advance_by(n).next_bit() == bit_at(s.stored(), (s.cursor + n) as int),
        s.advance_by(n).advance() == s.advance_by(n + 1),
{
}

/// `a` reads and then `b` reads are `a + b` reads.
pub proof fn lemma_advance_by_twice(s: BitBuffer, a: nat, b: nat)
    ensures
        s.advance_by(a).advance_by(b) == s.advance_by(a + b),
{
}

/// Bits written to an empty buffer and flushed are read back as written, and
/// every read after them delivers zero.
pub proof fn lemma_write_read_round_trip(bits: Seq<bool>, n: nat)
    ensures
        BitBuffer::empty().write_bits(bits).flush().read_bits(n) == Seq::new(
            n,
            |i: int| bit_at(bits, i),
        ),
{
    let e = BitBuffer::empty();
    let w = e.write_bits(bits);
    let f = w.flush();
    assert(e.written() =~= Seq::<bool>::empty());
    lemma_write_bits_appends(e, bits);
    assert(w.written() =~= bits);
    lemma_flush_pads(w);
    lemma_read_bits(f, n);
    assert forall|i: int| 0 <= i < n implies bit_at(f.stored(), f.cursor + i) == bit_at(
        bits,
        i,
    ) by {}
    assert(f.read_bits(n) =~= Seq::new(n, |i: int| bit_at(bits, i)));
}

/// Packs bits into bytes as they are written, and serves the bits of its bytes
/// in order. `buffer` stages the bits of the next byte in its low
/// `buffer_size` bits; `current_bit` is the read cursor.
pub struct BitManipulator {
    pub buffer: u8,
    pub buffer_size: u8,
    pub output: Vec<u8>,
    pub current_bit: usize,
}

impl View for BitManipulator {
    type V = BitBuffer;

    open spec fn view(&self) -> BitBuffer {
        BitBuffer {
            bytes: self.output@,
            staged: low_bits(self.buffer, self.buffer_size as int),
            cursor: self.current_bit as nat,
        }
    }
}

impl Default for BitManipulator {
    /// An empty buffer: no bytes, nothing staged, the cursor at the start.
    fn default() -> (b: Self)
        ensures
            b.wf(),
            b@ == BitBuffer::empty(),
            b.buffer == 0,
            b.buffer_size == 0,
            b.output@ == Seq::<u8>::empty(),
            b.current_bit == 0,
    {
        let b = BitManipulator { buffer: 0, buffer_size: 0, output: Vec::new(), current_bit: 0 };
        proof {
            lemma2_to64();
            assert(b@.staged =~= Seq::<bool>::empty());
        }
        b
    }
}

proof fn lemma_shift_in_value(buffer: u8, bit: u8)
    by (bit_vector)
    requires
        buffer < 128,
        bit <= 1,
    ensures
        (buffer << 1u8) | bit == 2 * buffer + bit,
{
}

proof fn lemma_same_low_bits(x: u8, y: u8, bound: u8, n: u8)
    by (bit_vector)
    requires
        n <= 7,
        bound == 1u8 << n,
        x < bound,
        y < bound,
        0 < n ==> (x >> 0u8) & 1u8 == (y >> 0u8) & 1u8,
        1 < n ==> (x >> 1u8) & 1u8 == (y >> 1u8) & 1u8,
        2 < n ==> (x >> 2u8) & 1u8 == (y >> 2u8) & 1u8,
        3 < n ==> (x >> 3u8) & 1u8 == (y >> 3u8) & 1u8,
        4 < n ==> (x >> 4u8) & 1u8 == (y >> 4u8) & 1u8,
        5 < n ==> (x >> 5u8) & 1u8 == (y >> 5u8) & 1u8,
        6 < n ==> (x >> 6u8) & 1u8 == (y >> 6u8) & 1u8,
    ensures
        x == y,
{
}

proof fn lemma_bit_is_zero_or_one(x: u8, shift: u8)
    by (bit_vector)
    requires
        shift < 8,
    ensures
        (x >> shift) & 1u8 == 0 || (x >> shift) & 1u8 == 1,
{
}

/// The view of a well-formed bit buffer fixes every field of it: two
/// well-formed buffers with the same view hold the same staging byte, the
/// same count of staged bits, the same bytes and the same cursor.
pub proof fn lemma_view_fixes_fields(a: BitManipulator, b: BitManipulator)
    requires
        a.wf(),
        b.wf(),
        a@ == b@,
    ensures
        a.buffer == b.buffer,
        a.buffer_size == b.buffer_size,
        a.output@ == b.output@,
        a.current_bit == b.current_bit,
{
    let n: u8 = a.buffer_size;
    assert(a@.staged.len() == a.buffer_size);
    assert(b@.staged.len() == b.buffer_size);
    let bound: u8 = 1u8 << n;
    lemma2_to64();
    if n < 7 {
        lemma_pow2_strictly_increases(n as nat, 7);
    }
    lemma_u8_shl_is_mul(1, n);
    assert forall|j: u8| j < n implies (a.buffer >> j) & 1u8 == (b.buffer >> j) & 1u8 by {
        let i: int = n - 1 - j;
        assert(a@.staged[i] == low_bit(a.buffer, n as int, i));
        assert(b@.staged[i] == low_bit(b.buffer, n as int, i));
        assert(((n as int - 1 - i) as u8) == j);
        lemma_bit_is_zero_or_one(a.buffer, j);
        lemma_bit_is_zero_or_one(b.buffer, j);
    }
    lemma_same_low_bits(a.buffer, b.buffer, bound, n);
}

impl BitManipulator {
    /// At most seven bits are staged, and the staging byte holds nothing
    /// above them.
    pub open spec fn wf(&self) -> bool {
        &&& self.buffer_size <= 7
        &&& self.buffer < pow2(self.buffer_size as nat)
    }

    /// Every stored bit has an index that the cursor can hold.
    pub open spec fn addressable(&self) -> bool {
        8 * self.output.len() <= usize::MAX
    }

    /// An empty buffer.
    pub fn new() -> (b: Self)
        ensures
            b.wf(),
            b@ == BitBuffer::empty(),
            b.buffer == 0,
            b.buffer_size == 0,
            b.output@ == Seq::<u8>::empty(),
            b.current_bit == 0,
    {
        Self::default()
    }

    /// Appends one bit: the staging byte is doubled and takes the bit as its
    /// lowest. The eighth staged bit completes a byte, which goes to the
    /// output, and the staging starts anew.
    pub fn write_bit(&mut self, bit: u8)
        requires
            old(self).wf(),
            bit <= 1,
        ensures
            final(self).wf(),
            final(self)@ == old(self)@.write_bit(bit == 1),
            final(self).current_bit == old(self).current_bit,
            old(self).buffer_size < 7 ==> {
                &&& final(self).buffer == 2 * old(self).buffer + bit
                &&& final(self).buffer == (old(self).buffer << 1u8) | bit
                &&& final(self).buffer_size == old(self).buffer_size + 1
                &&& final(self).output@ == old(self).output@
            },
            old(self).buffer_size == 7 ==> {
                &&& final(self).buffer == 0
                &&& final(self).buffer_size == 0
                &&& final(self).output@ == old(self).output@.push(
                    (2 * old(self).buffer + bit) as u8,
                )
            },
    {
        proof {
            lemma_low_bits_push(self.buffer, self.buffer_size as int, bit);
            lemma2_to64();
            if self.buffer_size < 7 {
                lemma_pow2_strictly_increases(self.buffer_size as nat, 7);
            }
            lemma_pow2_unfold((self.buffer_size + 1) as nat);
            lemma_shift_in_value(self.buffer, bit);
        }
        self.buffer <<= 1;
        self.buffer |= bit;
        self.buffer_size += 1;

        if self.buffer_size == 8 {
            proof {
                lemma_pack_byte_bits(self.buffer);
            }
            self.output.push(self.buffer);
            self.buffer = 0;
            self.buffer_size = 0;
            assert(self@.staged =~= Seq::<bool>::empty());
        }
    }

    /// Completes the byte under way, if any, with zeros in its low bits, and
    /// starts the staging anew; changes nothing if no bit is staged.
    pub fn flush(&mut self)
        requires
            old(self).wf(),
        ensures
            final(self).wf(),
            final(self)@ == old(self)@.flush(),
            final(self).buffer == 0,
            final(self).buffer_size == 0,
            final(self).current_bit == old(self).current_bit,
            old(self).buffer_size == 0 ==> *final(self) == *old(self),
            old(self).buffer_size > 0 ==> final(self).output@ == old(self).output@.push(
                old(self).buffer << ((8 - old(self).buffer_size) as u8),
            ),
    {
        proof {
            lemma2_to64();
        }
        if self.buffer_size > 0 {
            proof {
                lemma_low_bits_pad(self.buffer, self.buffer_size as int);
            }
            self.buffer <<= 8 - self.buffer_size;
            proof {
                lemma_pack_byte_bits(self.buffer);
            }
            self.output.push(self.buffer);
            self.buffer = 0;
            self.buffer_size = 0;
            assert(self@.staged =~= Seq::<bool>::empty());
        } else {
            assert(self@.staged =~= Seq::<bool>::empty());
        }
    }

    /// The stored bit at `index_of_bit`, as 0 or 1.
    pub fn read_bit_at_index(&mut self, index_of_bit: usize) -> (bit: u8)
        requires
            index_of_bit < 8 * old(self).output.len(),
        ensures
            *final(self) == *old(self),
            bit == bit_value(old(self)@.stored()[index_of_bit as int]),
    {
        let byte_index: usize = index_of_bit / 8;
        let bit_index: usize = index_of_bit % 8;
        let byte: u8 = self.output[byte_index];
        let shift: u8 = (7 - bit_index) as u8;
        let bit: u8 = (byte >> shift) & 1;
        assert(bit <= 1) by (bit_vector)
            requires
                bit == (byte >> shift) & 1u8,
        ;
        bit
    }

    /// The bit under the cursor, as 0 or 1, moving the cursor on; 0, and the
    /// cursor stays, once it has passed the last byte.
    pub fn read_next_bit(&mut self) -> (bit: u8)
        requires
            old(self).addressable(),
        ensures
            final(self)@ == old(self)@.advance(),
            final(self).buffer == old(self).buffer,
            final(self).buffer_size == old(self).buffer_size,
            final(self).output == old(self).output,
            bit == bit_value(old(self)@.next_bit()),
    {
        if self.current_bit >= self.output.len() * 8 {
            return 0;
        }
        let bit = self.read_bit_at_index(self.current_bit);
        self.current_bit += 1;
        bit
    }
}

} // verus!
