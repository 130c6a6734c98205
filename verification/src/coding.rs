//! What the coder computes, as mathematics: the renormalisation of the range,
//! the bits that a sequence of symbols is encoded to under a fixed frequency
//! table, and the symbols that a bit stream is decoded to.
//!
//! The interval `[low, high)` lies within `[0, 4 * quarter)`. A bit stream is
//! a `Seq<bool>` that yields zeros past its end.

use vstd::prelude::*;
use vstd::arithmetic::power2::{
    lemma_pow2_pos, lemma_pow2_strictly_increases, lemma_pow2_unfold, pow2,
};
use crate::bits::{bit_at, bit_value, repeat, window_value};
use crate::error::CodecError;
use crate::models::modeltrait::{valid_interval, FrequencyTable};
use crate::range::{lemma_scale_point_monotonic, scale_point};

verus! {

/// `0 <= low < high <= 4 * quarter`.
pub open spec fn in_bounds(low: int, high: int, quarter: int) -> bool {
    0 < quarter && 0 <= low < high <= 4 * quarter
}

/// The interval fits in neither half of the whole, nor in its middle half.
pub open spec fn quiescent(low: int, high: int, quarter: int) -> bool {
    &&& !(high < 2 * quarter)
    &&& !(low >= 2 * quarter)
    &&& !(low >= quarter && high < 3 * quarter)
}

/// A settled bit, followed by the `pending` opposite bits that waited for it.
pub open spec fn resolved(b: bool, pending: nat) -> Seq<bool> {
    seq![b] + repeat(!b, pending)
}

/// Where a run of the encoder's arithmetic ends: the interval and the count
/// of pending bits reached, the bits emitted on the way, and the number of
/// scalings made.
pub struct Encoded {
    pub low: int,
    pub high: int,
    pub pending: nat,
    pub bits: Seq<bool>,
    pub shifts: nat,
}

/// Scales the interval until it is quiescent. An interval below the half
/// mark settles a 0, one above it a 1, each followed by the pending opposite
/// bits; one within the middle half defers one more bit.
pub open spec fn renormalize(low: int, high: int, pending: nat, quarter: int) -> Encoded
    decreases 4 * quarter - (high - low),
    when in_bounds(low, high, quarter)
{
    if high < 2 * quarter {
        let r = renormalize(2 * low, 2 * high, 0, quarter);
        Encoded { bits: resolved(false, pending) + r.bits, shifts: r.shifts + 1, ..r }
    } else if low >= 2 * quarter {
        let r = renormalize(2 * (low - 2 * quarter), 2 * (high - 2 * quarter), 0, quarter);
        Encoded { bits: resolved(true, pending) + r.bits, shifts: r.shifts + 1, ..r }
    } else if low >= quarter && high < 3 * quarter {
        let r = renormalize(2 * (low - quarter), 2 * (high - quarter), pending + 1, quarter);
        Encoded { shifts: r.shifts + 1, ..r }
    } else {
        Encoded { low, high, pending, bits: Seq::empty(), shifts: 0 }
    }
}

/// Renormalising leaves a quiescent interval within the bounds, as many
/// times wider as two to the number of scalings; every scaling either emits
/// one settled bit with the pending ones, or defers one more.
pub proof fn lemma_renormalize(low: int, high: int, pending: nat, quarter: int)
    requires
        in_bounds(low, high, quarter),
    ensures
        ({
            let r = renormalize(low, high, pending, quarter);
            &&& in_bounds(r.low, r.high, quarter)
            &&& quiescent(r.low, r.high, quarter)
            &&& r.bits.len() + r.pending == pending + r.shifts
            &&& r.high - r.low == pow2(r.shifts) * (high - low)
        }),
    decreases 4 * quarter - (high - low),
{
    let r = renormalize(low, high, pending, quarter);
    let w: int = high - low;
    assert(resolved(false, pending).len() == pending + 1);
    assert(resolved(true, pending).len() == pending + 1);
    if high < 2 * quarter {
        let n = renormalize(2 * low, 2 * high, 0, quarter);
        lemma_renormalize(2 * low, 2 * high, 0, quarter);
        lemma_doubled_width(n.shifts, 2 * high - 2 * low, w);
    } else if low >= 2 * quarter {
        let n = renormalize(2 * (low - 2 * quarter), 2 * (high - 2 * quarter), 0, quarter);
        lemma_renormalize(2 * (low - 2 * quarter), 2 * (high - 2 * quarter), 0, quarter);
        lemma_doubled_width(n.shifts, 2 * (high - 2 * quarter) - 2 * (low - 2 * quarter), w);
    } else if low >= quarter && high < 3 * quarter {
        let n = renormalize(2 * (low - quarter), 2 * (high - quarter), pending + 1, quarter);
        lemma_renormalize(2 * (low - quarter), 2 * (high - quarter), pending + 1, quarter);
        lemma_doubled_width(n.shifts, 2 * (high - quarter) - 2 * (low - quarter), w);
    } else {
        assert(pow2(0) == 1) by {
            vstd::arithmetic::power2::lemma2_to64();
        }
        let one: int = pow2(0) as int;
        assert(one * w == w) by (nonlinear_arith)
            requires
                one == 1,
        ;
    }
}

proof fn lemma_doubled_width(shifts: nat, doubled: int, width: int)
    requires
        doubled == 2 * width,
    ensures
        pow2(shifts) * doubled == pow2(shifts + 1) * width,
{
    lemma_pow2_unfold(shifts + 1);
    let m: int = pow2(shifts) as int;
    assert(m * doubled == (2 * m) * width) by (nonlinear_arith)
        requires
            doubled == 2 * width,
    ;
}

/// Renormalisation ends after at most `precision` scalings, where the whole
/// range is `2^precision`.
pub proof fn lemma_renormalize_terminates(
    low: int,
    high: int,
    pending: nat,
    quarter: int,
    precision: nat,
)
    requires
        in_bounds(low, high, quarter),
        4 * quarter == pow2(precision),
    ensures
        renormalize(low, high, pending, quarter).shifts <= precision,
        renormalize(low, high, pending, quarter).pending <= pending + precision,
{
    let r = renormalize(low, high, pending, quarter);
    lemma_renormalize(low, high, pending, quarter);
    lemma_pow2_pos(r.shifts);
    let w: int = high - low;
    let m: int = pow2(r.shifts) as int;
    assert(m <= m * w) by (nonlinear_arith)
        requires
            m > 0,
            w >= 1,
    ;
    if r.shifts > precision {
        lemma_pow2_strictly_increases(precision, r.shifts);
    }
}

/// One symbol's step: the interval is narrowed to the part that `interval`
/// takes of `total`, then renormalised.
pub open spec fn encode_interval(
    low: int,
    high: int,
    pending: nat,
    quarter: int,
    interval: (u64, u64),
    total: u64,
) -> Encoded {
    renormalize(
        scale_point(low, high, interval.0 as int, total as int),
        scale_point(low, high, interval.1 as int, total as int),
        pending,
        quarter,
    )
}

/// Why a lookup cannot be encoded, if it cannot: the total frequency exceeds
/// the quarter mark; or the symbol has no interval; or its interval is empty
/// or leaves the total, so that narrowing by it would not give a proper,
/// non-empty part of the range.
pub open spec fn interval_fault(found: Option<(u64, u64)>, total: u64, quarter: int) -> Option<
    CodecError,
> {
    if total > quarter {
        Some(CodecError::TotalFrequencyOverflow)
    } else {
        match found {
            None => Some(CodecError::UnknownSymbol),
            Some(interval) => if valid_interval(interval, total) {
                None
            } else {
                Some(CodecError::RangeCollapse)
            },
        }
    }
}

/// The interval that the table holds for the symbol, if any.
pub open spec fn lookup<T>(table: FrequencyTable<T>, symbol: T) -> Option<(u64, u64)> {
    if table.intervals.contains_key(symbol) {
        Some(table.intervals[symbol])
    } else {
        None
    }
}

/// Why the symbol cannot be encoded under the table, if it cannot.
pub open spec fn symbol_fault<T>(table: FrequencyTable<T>, quarter: int, symbol: T) -> Option<
    CodecError,
> {
    interval_fault(lookup(table, symbol), table.total_frequency, quarter)
}

/// The index of the first symbol that cannot be encoded, or the length of
/// the sequence if there is none.
pub open spec fn first_fault<T>(table: FrequencyTable<T>, quarter: int, symbols: Seq<T>) -> nat
    decreases symbols.len(),
{
    if symbols.len() == 0 {
        0
    } else if symbol_fault(table, quarter, symbols[0]) is Some {
        0
    } else {
        1 + first_fault(table, quarter, symbols.drop_first())
    }
}

/// No symbol before the first fault has a fault, and the symbol there has one.
pub proof fn lemma_first_fault<T>(table: FrequencyTable<T>, quarter: int, symbols: Seq<T>)
    ensures
        first_fault(table, quarter, symbols) <= symbols.len(),
        forall|j: int|
            0 <= j < first_fault(table, quarter, symbols) ==> symbol_fault(
                table,
                quarter,
                #[trigger] symbols[j],
            ) is None,
        first_fault(table, quarter, symbols) < symbols.len() ==> symbol_fault(
            table,
            quarter,
            symbols[first_fault(table, quarter, symbols) as int],
        ) is Some,
    decreases symbols.len(),
{
    if symbols.len() > 0 && symbol_fault(table, quarter, symbols[0]) is None {
        let rest = symbols.drop_first();
        lemma_first_fault(table, quarter, rest);
        let n = first_fault(table, quarter, symbols);
        assert forall|j: int| 0 <= j < n implies symbol_fault(
            table,
            quarter,
            #[trigger] symbols[j],
        ) is None by {
            if j > 0 {
                assert(symbols[j] == rest[j - 1]);
            }
        }
        if n < symbols.len() {
            assert(symbols[n as int] == rest[n - 1]);
        }
    }
}

/// The run of the encoder's arithmetic over the symbols, first to last, each
/// by its interval in the table.
pub open spec fn encode_symbols<T>(
    low: int,
    high: int,
    pending: nat,
    quarter: int,
    table: FrequencyTable<T>,
    symbols: Seq<T>,
) -> Encoded
    decreases symbols.len(),
{
    if symbols.len() == 0 {
        Encoded { low, high, pending, bits: Seq::empty(), shifts: 0 }
    } else {
        let first = encode_interval(
            low,
            high,
            pending,
            quarter,
            table.intervals[symbols[0]],
            table.total_frequency,
        );
        let rest = encode_symbols(
            first.low,
            first.high,
            first.pending,
            quarter,
            table,
            symbols.drop_first(),
        );
        Encoded { bits: first.bits + rest.bits, shifts: first.shifts + rest.shifts, ..rest }
    }
}

/// The bits that end a message: one more bit is deferred, then a 1 settles
/// the lot if the interval starts above the quarter mark, else a 0.
pub open spec fn termination_bits(low: int, pending: nat, quarter: int) -> Seq<bool> {
    resolved(low > quarter, pending + 1)
}

/// All the bits of a message: those of its symbols, then those that end it.
pub open spec fn message_bits<T>(
    low: int,
    high: int,
    pending: nat,
    quarter: int,
    table: FrequencyTable<T>,
    symbols: Seq<T>,
) -> Seq<bool> {
    let e = encode_symbols(low, high, pending, quarter, table, symbols);
    e.bits + termination_bits(e.low, e.pending, quarter)
}

/// Where the decoder stands: its interval, its code value, and the index of
/// the next bit of the stream.
pub struct DecoderState {
    pub low: int,
    pub high: int,
    pub code: int,
    pub pos: int,
}

/// Scales the interval until it is quiescent, as the encoder does, and the
/// code value with it, each scaling taking one more bit from the stream.
pub open spec fn decoder_renormalize(
    low: int,
    high: int,
    code: int,
    pos: int,
    quarter: int,
    stream: Seq<bool>,
) -> DecoderState
    decreases 4 * quarter - (high - low),
    when in_bounds(low, high, quarter)
{
    let next = bit_value(bit_at(stream, pos));
    if high < 2 * quarter {
        decoder_renormalize(2 * low, 2 * high, 2 * code + next, pos + 1, quarter, stream)
    } else if low >= 2 * quarter {
        decoder_renormalize(
            2 * (low - 2 * quarter),
            2 * (high - 2 * quarter),
            2 * (code - 2 * quarter) + next,
            pos + 1,
            quarter,
            stream,
        )
    } else if low >= quarter && high < 3 * quarter {
        decoder_renormalize(
            2 * (low - quarter),
            2 * (high - quarter),
            2 * (code - quarter) + next,
            pos + 1,
            quarter,
            stream,
        )
    } else {
        DecoderState { low, high, code, pos }
    }
}

/// Where in the stream the decoder reads does not matter past the end of the
/// stream: from two positions that are the same, or both past the end, it
/// reaches the same interval and code value after as many bits.
pub proof fn lemma_decoder_renormalize_past_end(
    low: int,
    high: int,
    code: int,
    pos: int,
    other: int,
    quarter: int,
    stream: Seq<bool>,
)
    requires
        in_bounds(low, high, quarter),
        pos == other || (pos >= stream.len() && other >= stream.len()),
    ensures
        ({
            let a = decoder_renormalize(low, high, code, pos, quarter, stream);
            let b = decoder_renormalize(low, high, code, other, quarter, stream);
            &&& a.low == b.low
            &&& a.high == b.high
            &&& a.code == b.code
            &&& a.pos - pos == b.pos - other
            &&& a.pos >= pos
        }),
    decreases 4 * quarter - (high - low),
{
    let next = bit_value(bit_at(stream, pos));
    if high < 2 * quarter {
        lemma_decoder_renormalize_past_end(
            2 * low,
            2 * high,
            2 * code + next,
            pos + 1,
            other + 1,
            quarter,
            stream,
        );
    } else if low >= 2 * quarter {
        lemma_decoder_renormalize_past_end(
            2 * (low - 2 * quarter),
            2 * (high - 2 * quarter),
            2 * (code - 2 * quarter) + next,
            pos + 1,
            other + 1,
            quarter,
            stream,
        );
    } else if low >= quarter && high < 3 * quarter {
        lemma_decoder_renormalize_past_end(
            2 * (low - quarter),
            2 * (high - quarter),
            2 * (code - quarter) + next,
            pos + 1,
            other + 1,
            quarter,
            stream,
        );
    }
}

/// The decoder scales as often as the encoder does from the same interval,
/// and takes one bit for each scaling.
pub proof fn lemma_decoder_renormalize_steps(
    low: int,
    high: int,
    pending: nat,
    code: int,
    pos: int,
    quarter: int,
    stream: Seq<bool>,
)
    requires
        in_bounds(low, high, quarter),
    ensures
        ({
            let d = decoder_renormalize(low, high, code, pos, quarter, stream);
            let r = renormalize(low, high, pending, quarter);
            &&& d.low == r.low
            &&& d.high == r.high
            &&& d.pos == pos + r.shifts
        }),
    decreases 4 * quarter - (high - low),
{
    let next = bit_value(bit_at(stream, pos));
    if high < 2 * quarter {
        lemma_decoder_renormalize_steps(
            2 * low,
            2 * high,
            0,
            2 * code + next,
            pos + 1,
            quarter,
            stream,
        );
    } else if low >= 2 * quarter {
        lemma_decoder_renormalize_steps(
            2 * (low - 2 * quarter),
            2 * (high - 2 * quarter),
            0,
            2 * (code - 2 * quarter) + next,
            pos + 1,
            quarter,
            stream,
        );
    } else if low >= quarter && high < 3 * quarter {
        lemma_decoder_renormalize_steps(
            2 * (low - quarter),
            2 * (high - quarter),
            pending + 1,
            2 * (code - quarter) + next,
            pos + 1,
            quarter,
            stream,
        );
    }
}

/// The code value lies in the part of `[low, high)` that the interval takes,
/// and the interval is a valid one.
pub open spec fn code_in(low: int, high: int, code: int, interval: (u64, u64), total: u64) -> bool {
    &&& valid_interval(interval, total)
    &&& scale_point(low, high, interval.0 as int, total as int) <= code
    &&& code < scale_point(low, high, interval.1 as int, total as int)
}

/// The symbol has an interval in the table, and the code value lies in the
/// part of `[low, high)` that this interval takes.
pub open spec fn hits<T>(
    table: FrequencyTable<T>,
    low: int,
    high: int,
    code: int,
    symbol: T,
) -> bool {
    table.intervals.contains_key(symbol) && code_in(
        low,
        high,
        code,
        table.intervals[symbol],
        table.total_frequency,
    )
}

/// A symbol that the code value hits, if there is one.
pub open spec fn locate<T>(table: FrequencyTable<T>, low: int, high: int, code: int) -> Option<T> {
    if exists|k: T| hits(table, low, high, code, k) {
        Some(choose|k: T| hits(table, low, high, code, k))
    } else {
        None
    }
}

/// In a consistent table the code value hits at most one symbol.
pub proof fn lemma_hit_is_unique<T>(
    table: FrequencyTable<T>,
    low: int,
    high: int,
    code: int,
    a: T,
    b: T,
)
    requires
        table.consistent(),
        low <= high,
        hits(table, low, high, code, a),
        hits(table, low, high, code, b),
    ensures
        a == b,
{
    if a != b {
        let x = table.intervals[a];
        let y = table.intervals[b];
        let total = table.total_frequency as int;
        if x.1 <= y.0 {
            lemma_scale_point_monotonic(low, high, x.1 as int, y.0 as int, total);
        } else {
            lemma_scale_point_monotonic(low, high, y.1 as int, x.0 as int, total);
        }
    }
}

/// In a consistent table the symbol located is the one that the code value
/// hits.
pub proof fn lemma_locate<T>(table: FrequencyTable<T>, low: int, high: int, code: int, symbol: T)
    requires
        table.consistent(),
        low <= high,
        hits(table, low, high, code, symbol),
    ensures
        locate(table, low, high, code) == Some(symbol),
{
    let chosen = choose|k: T| hits(table, low, high, code, k);
    lemma_hit_is_unique(table, low, high, code, chosen, symbol);
}

/// What decoding gives: where the decoder stands in the end, the symbols
/// decoded, and the fault that stopped it, if one did.
#[verifier::reject_recursive_types(T)]
pub struct Decoded<T> {
    pub state: DecoderState,
    pub symbols: Seq<T>,
    pub fault: Option<CodecError>,
}

/// Decodes `count` symbols. Each is the symbol that the code value hits; the
/// interval is narrowed to that symbol's part and, unless the symbol was the
/// last, renormalised. A total frequency above the quarter mark, or a code
/// value that hits no symbol, stops the decoder.
pub open spec fn decode_symbols<T>(
    low: int,
    high: int,
    code: int,
    pos: int,
    quarter: int,
    table: FrequencyTable<T>,
    stream: Seq<bool>,
    count: nat,
) -> Decoded<T>
    decreases count,
{
    let here = DecoderState { low, high, code, pos };
    if count == 0 {
        Decoded { state: here, symbols: Seq::empty(), fault: None }
    } else if table.total_frequency > quarter {
        Decoded {
            state: here,
            symbols: Seq::empty(),
            fault: Some(CodecError::TotalFrequencyOverflow),
        }
    } else {
        match locate(table, low, high, code) {
            None => Decoded {
                state: here,
                symbols: Seq::empty(),
                fault: Some(CodecError::MalformedStream),
            },
            Some(symbol) => {
                let interval = table.intervals[symbol];
                let new_low = scale_point(
                    low,
                    high,
                    interval.0 as int,
                    table.total_frequency as int,
                );
                let new_high = scale_point(
                    low,
                    high,
                    interval.1 as int,
                    table.total_frequency as int,
                );
                if count == 1 {
                    Decoded {
                        state: DecoderState { low: new_low, high: new_high, code, pos },
                        symbols: seq![symbol],
                        fault: None,
                    }
                } else {
                    let next = decoder_renormalize(new_low, new_high, code, pos, quarter, stream);
                    let rest = decode_symbols(
                        next.low,
                        next.high,
                        next.code,
                        next.pos,
                        quarter,
                        table,
                        stream,
                        (count - 1) as nat,
                    );
                    Decoded {
                        state: rest.state,
                        symbols: seq![symbol] + rest.symbols,
                        fault: rest.fault,
                    }
                }
            },
        }
    }
}

/// Decodes a message: nothing, and no bit is taken, if the table's message
/// length is zero; else the code value is loaded from the first `precision`
/// bits at `start`, and as many symbols are decoded as the table says.
pub open spec fn decode_message<T>(
    low: int,
    high: int,
    quarter: int,
    precision: nat,
    table: FrequencyTable<T>,
    stream: Seq<bool>,
    start: int,
) -> Decoded<T> {
    if table.message_length == 0 {
        Decoded {
            state: DecoderState { low, high, code: 0, pos: start },
            symbols: Seq::empty(),
            fault: None,
        }
    } else {
        decode_symbols(
            low,
            high,
            window_value(stream, start, precision),
            start + precision,
            quarter,
            table,
            stream,
            table.message_length as nat,
        )
    }
}

} // verus!
