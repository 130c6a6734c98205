//! Decoding gives back what was encoded.
//!
//! The decoder's code value is a window on the bits that the encoder is still
//! to emit: the next bit to settle, then, past the bits deferred so far,
//! the bits that follow. The proof shows that this window always lies in the
//! encoder's interval, so that the decoder finds each symbol and scales as
//! the encoder did.

use vstd::prelude::*;
use vstd::arithmetic::power2::{lemma_pow2_pos, lemma_pow2_unfold, pow2};
use crate::bitmanipulator::{lemma_flush_pads, lemma_write_bits_appends, BitBuffer};
use crate::bits::{
    bit_at, bytes_bits, lemma_bytes_bits_concat, lemma_window_split_first, repeat, window_value,
};
use crate::coding::{
    decode_message, decode_symbols, decoder_renormalize, encode_interval, hits, in_bounds,
    lemma_locate, lemma_renormalize, message_bits, quiescent, renormalize, resolved,
};
use crate::models::modeltrait::FrequencyTable;
use crate::range::{lemma_scale_point_bounds, lemma_scale_point_strict, scale_point};

verus! {

/// From index `n` on the stream holds `bits`.
pub open spec fn carries(stream: Seq<bool>, n: int, bits: Seq<bool>) -> bool {
    forall|i: int| 0 <= i < bits.len() ==> bit_at(stream, n + i) == #[trigger] bits[i]
}

/// The `pending` bits after index `n` are the opposite of the bit at `n`.
pub open spec fn deferred(stream: Seq<bool>, n: int, pending: nat) -> bool {
    forall|i: int| n < i <= n + pending ==> #[trigger] bit_at(stream, i) == !bit_at(stream, n)
}

/// The code value of a decoder that has followed the encoder up to the bit at
/// index `n`, with `pending` bits deferred: the bit at `n`, then the
/// `precision - 1` bits past the deferred ones.
pub open spec fn code_at(
    stream: Seq<bool>,
    n: int,
    pending: nat,
    precision: nat,
    quarter: int,
) -> int {
    (if bit_at(stream, n) {
        2 * quarter
    } else {
        0
    }) + window_value(stream, n + pending + 1, (precision - 1) as nat)
}

proof fn lemma_carries_split(stream: Seq<bool>, n: int, a: Seq<bool>, b: Seq<bool>)
    requires
        carries(stream, n, a + b),
    ensures
        carries(stream, n, a),
        carries(stream, n + a.len(), b),
{
    let ab = a + b;
    assert forall|i: int| 0 <= i < a.len() implies bit_at(stream, n + i) == #[trigger] a[i] by {
        assert(ab[i] == a[i]);
    }
    assert forall|i: int| 0 <= i < b.len() implies bit_at(stream, n + a.len() + i)
        == #[trigger] b[i] by {
        assert(ab[a.len() + i] == b[i]);
    }
}

proof fn lemma_carries_resolved(stream: Seq<bool>, n: int, b: bool, pending: nat)
    requires
        carries(stream, n, resolved(b, pending)),
    ensures
        bit_at(stream, n) == b,
        deferred(stream, n, pending),
{
    let bits = resolved(b, pending);
    assert(bits[0] == b);
    assert forall|i: int| n < i <= n + pending implies #[trigger] bit_at(stream, i) == !bit_at(
        stream,
        n,
    ) by {
        assert(bits[i - n] == !b);
        assert(bit_at(stream, n + (i - n)) == bits[i - n]);
    }
}

/// The code value of a decoder that has loaded its first `precision` bits is
/// the window on them.
proof fn lemma_code_at_start(stream: Seq<bool>, n: int, precision: nat, quarter: int)
    requires
        precision >= 2,
        quarter == pow2((precision - 2) as nat),
    ensures
        code_at(stream, n, 0, precision, quarter) == window_value(stream, n, precision),
        window_value(stream, n, precision) == 2 * window_value(
            stream,
            n,
            (precision - 1) as nat,
        ) + (if bit_at(stream, n + precision - 1) {
            1int
        } else {
            0int
        }),
{
    lemma_window_split_first(stream, n, (precision - 1) as nat);
    lemma_pow2_unfold((precision - 1) as nat);
}

/// Renormalisation keeps the decoder with the encoder. Let the stream
/// carry, from index `n`, the bits that renormalising `[low, high)` emits,
/// and let the decoder's window after those bits lie in the interval
/// reached. Then the window at `n` lies in `[low, high)`, and the decoder
/// that renormalises from there reaches the same interval with the window
/// after those bits as its code value.
pub proof fn lemma_renormalize_coupled(
    low: int,
    high: int,
    pending: nat,
    quarter: int,
    precision: nat,
    stream: Seq<bool>,
    n: int,
)
    requires
        in_bounds(low, high, quarter),
        precision >= 2,
        quarter == pow2((precision - 2) as nat),
        ({
            let r = renormalize(low, high, pending, quarter);
            let m = n + r.bits.len();
            &&& carries(stream, n, r.bits)
            &&& deferred(stream, m, r.pending)
            &&& r.low <= code_at(stream, m, r.pending, precision, quarter) < r.high
        }),
    ensures
        deferred(stream, n, pending),
        low <= code_at(stream, n, pending, precision, quarter) < high,
        ({
            let r = renormalize(low, high, pending, quarter);
            let m = n + r.bits.len();
            let d = decoder_renormalize(
                low,
                high,
                code_at(stream, n, pending, precision, quarter),
                n + pending + precision,
                quarter,
                stream,
            );
            &&& d.low == r.low
            &&& d.high == r.high
            &&& d.code == code_at(stream, m, r.pending, precision, quarter)
            &&& d.pos == m + r.pending + precision
        }),
    decreases 4 * quarter - (high - low),
{
    let r = renormalize(low, high, pending, quarter);
    let code = code_at(stream, n, pending, precision, quarter);
    let after = n + pending + 1;
    if high < 2 * quarter || low >= 2 * quarter {
        let b = low >= 2 * quarter;
        let (l1, h1) = if b {
            (2 * (low - 2 * quarter), 2 * (high - 2 * quarter))
        } else {
            (2 * low, 2 * high)
        };
        let r1 = renormalize(l1, h1, 0, quarter);
        assert(r.bits == resolved(b, pending) + r1.bits);
        assert(resolved(b, pending).len() == pending + 1);
        lemma_carries_split(stream, n, resolved(b, pending), r1.bits);
        lemma_carries_resolved(stream, n, b, pending);
        lemma_renormalize_coupled(l1, h1, 0, quarter, precision, stream, after);
        lemma_code_at_start(stream, after, precision, quarter);
    } else if low >= quarter && high < 3 * quarter {
        let l1 = 2 * (low - quarter);
        let h1 = 2 * (high - quarter);
        lemma_renormalize_coupled(l1, h1, pending + 1, quarter, precision, stream, n);
        assert(bit_at(stream, after) == !bit_at(stream, n));
        lemma_window_split_first(stream, after, (precision - 2) as nat);
        assert(window_value(stream, after + 1, (precision - 1) as nat) == 2 * window_value(
            stream,
            after + 1,
            (precision - 2) as nat,
        ) + (if bit_at(stream, after + 1 + (precision - 1) - 1) {
            1int
        } else {
            0int
        }));
    } else {
        assert(r.bits.len() == 0);
    }
}

/// Decoding follows encoding. Let the stream carry, from index `n`, the bits
/// of the message that encodes `symbols` from the quiescent interval
/// `[low, high)` with `pending` bits deferred, whatever follows them. Then
/// the decoder's window at `n` lies in `[low, high)`, and decoding as many
/// symbols from there gives `symbols`.
pub proof fn lemma_message_coupled<T>(
    low: int,
    high: int,
    pending: nat,
    quarter: int,
    precision: nat,
    table: FrequencyTable<T>,
    symbols: Seq<T>,
    stream: Seq<bool>,
    n: int,
)
    requires
        in_bounds(low, high, quarter),
        quiescent(low, high, quarter),
        precision >= 2,
        quarter == pow2((precision - 2) as nat),
        table.consistent(),
        table.total_frequency <= quarter,
        forall|i: int| 0 <= i < symbols.len() ==> table.covers(#[trigger] symbols[i]),
        carries(stream, n, message_bits(low, high, pending, quarter, table, symbols)),
    ensures
        deferred(stream, n, pending),
        low <= code_at(stream, n, pending, precision, quarter) < high,
        symbols.len() > 0 ==> ({
            let d = decode_symbols(
                low,
                high,
                code_at(stream, n, pending, precision, quarter),
                n + pending + precision,
                quarter,
                table,
                stream,
                symbols.len(),
            );
            d.fault is None && d.symbols == symbols
        }),
    decreases symbols.len(),
{
    let all = message_bits(low, high, pending, quarter, table, symbols);
    let code = code_at(stream, n, pending, precision, quarter);
    if symbols.len() == 0 {
        let b = low > quarter;
        assert(all == resolved(b, pending + 1));
        assert(all.len() == pending + 2);
        lemma_carries_resolved(stream, n, b, pending + 1);
        let after = n + pending + 1;
        assert(bit_at(stream, after) == !b);
        lemma_window_split_first(stream, after, (precision - 2) as nat);
        lemma_window_split_first(stream, after + 1, (precision - 2) as nat);
    } else {
        let x = symbols[0];
        let rest = symbols.drop_first();
        let interval = table.intervals[x];
        let total = table.total_frequency;
        assert(table.covers(x));
        let l1 = scale_point(low, high, interval.0 as int, total as int);
        let h1 = scale_point(low, high, interval.1 as int, total as int);
        lemma_scale_point_bounds(low, high, interval.0 as int, total as int);
        lemma_scale_point_bounds(low, high, interval.1 as int, total as int);
        lemma_scale_point_strict(low, high, interval.0 as int, interval.1 as int, total as int);
        let r = renormalize(l1, h1, pending, quarter);
        assert(r == encode_interval(low, high, pending, quarter, interval, total));
        lemma_renormalize(l1, h1, pending, quarter);
        let tail = message_bits(r.low, r.high, r.pending, quarter, table, rest);
        assert(all =~= r.bits + tail);
        lemma_carries_split(stream, n, r.bits, tail);
        let m = n + r.bits.len();
        assert forall|i: int| 0 <= i < rest.len() implies table.covers(#[trigger] rest[i]) by {
            assert(rest[i] == symbols[i + 1]);
        }
        lemma_message_coupled(r.low, r.high, r.pending, quarter, precision, table, rest, stream, m);
        lemma_renormalize_coupled(l1, h1, pending, quarter, precision, stream, n);
        assert(hits(table, low, high, code, x));
        lemma_locate(table, low, high, code, x);
        if symbols.len() == 1 {
            assert(symbols =~= seq![x]);
        } else {
            assert(symbols =~= seq![x] + rest);
        }
    }
}

/// Decoding the encoded message gives the message back, whatever bytes
/// follow it. For a consistent table whose total frequency is at most a
/// quarter of the whole range and which covers every symbol of the message,
/// the bits that encode the message, written to an empty bit buffer and
/// flushed, are decoded from the buffer's bytes, with any bytes `tail`
/// after them, to the very symbols of the message.
pub proof fn theorem_round_trip_with_tail<T>(
    table: FrequencyTable<T>,
    precision: nat,
    symbols: Seq<T>,
    tail: Seq<u8>,
)
    requires
        precision >= 2,
        table.consistent(),
        table.total_frequency <= pow2((precision - 2) as nat),
        table.message_length == symbols.len(),
        forall|i: int| 0 <= i < symbols.len() ==> table.covers(#[trigger] symbols[i]),
    ensures
        ({
            let quarter = pow2((precision - 2) as nat) as int;
            let bits = message_bits(0, 4 * quarter, 0, quarter, table, symbols);
            let bytes = BitBuffer::empty().write_bits(bits).flush().bytes;
            let stream = bytes_bits(bytes + tail);
            let d = decode_message(0, 4 * quarter, quarter, precision, table, stream, 0);
            d.fault is None && d.symbols == symbols
        }),
{
    let quarter = pow2((precision - 2) as nat) as int;
    let bits = message_bits(0, 4 * quarter, 0, quarter, table, symbols);
    let written = BitBuffer::empty().write_bits(bits);
    let bytes = written.flush().bytes;
    let stream = bytes_bits(bytes + tail);
    lemma_pow2_pos((precision - 2) as nat);
    lemma_write_bits_appends(BitBuffer::empty(), bits);
    lemma_flush_pads(written);
    lemma_bytes_bits_concat(bytes, tail);
    assert(BitBuffer::empty().written() =~= Seq::<bool>::empty());
    assert(written.written() =~= bits);
    assert(stream == (bits + repeat(false, written.padding())) + bytes_bits(tail));
    if symbols.len() == 0 {
        assert(symbols =~= Seq::<T>::empty());
    } else {
        assert(carries(stream, 0, bits));
        lemma_message_coupled(0, 4 * quarter, 0, quarter, precision, table, symbols, stream, 0);
        lemma_code_at_start(stream, 0, precision, quarter);
    }
}

/// Decoding the encoded message gives the message back. For a consistent
/// table whose total frequency is at most a quarter of the whole range and
/// which covers every symbol of the message, the bits that encode the
/// message, written to an empty bit buffer and flushed, are decoded from
/// the buffer's bytes to the very symbols of the message.
pub proof fn theorem_round_trip<T>(table: FrequencyTable<T>, precision: nat, symbols: Seq<T>)
    requires
        precision >= 2,
        table.consistent(),
        table.total_frequency <= pow2((precision - 2) as nat),
        table.message_length == symbols.len(),
        forall|i: int| 0 <= i < symbols.len() ==> table.covers(#[trigger] symbols[i]),
    ensures
        ({
            let quarter = pow2((precision - 2) as nat) as int;
            let bits = message_bits(0, 4 * quarter, 0, quarter, table, symbols);
            let stream = BitBuffer::empty().write_bits(bits).flush().stored();
            let d = decode_message(0, 4 * quarter, quarter, precision, table, stream, 0);
            d.fault is None && d.symbols == symbols
        }),
{
    let quarter = pow2((precision - 2) as nat) as int;
    let bits = message_bits(0, 4 * quarter, 0, quarter, table, symbols);
    let bytes = BitBuffer::empty().write_bits(bits).flush().bytes;
    theorem_round_trip_with_tail(table, precision, symbols, Seq::<u8>::empty());
    assert(bytes + Seq::<u8>::empty() =~= bytes);
}

} // verus!
