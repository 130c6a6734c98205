//! Under a table that parts its total, the decoder always finds a symbol:
//! whatever the stream holds, it decodes a message of the length asked for.

use vstd::prelude::*;
use vstd::arithmetic::power2::{lemma_pow2_pos, lemma_pow2_unfold, pow2};
use crate::bits::{bit_at, bit_value, lemma_window_split_first, window_value};
use crate::coding::{
    decode_message, decode_symbols, decoder_renormalize, hits, in_bounds, locate, quiescent,
};
use crate::models::modeltrait::{holds_point, FrequencyTable};
use crate::range::{
    lemma_scale_point_bounds, lemma_scale_point_ends, lemma_scale_point_monotonic, scale_point,
};

verus! {

/// A code value below where point `t` falls lies between where two
/// neighbouring points before `t` fall.
proof fn lemma_point_under_code(low: int, high: int, code: int, total: int, t: int)
    requires
        low <= high,
        0 < total,
        0 <= t <= total,
        low <= code < scale_point(low, high, t, total),
    ensures
        exists|x: int|
            0 <= x < t && #[trigger] scale_point(low, high, x, total) <= code < scale_point(
                low,
                high,
                x + 1,
                total,
            ),
    decreases t,
{
    lemma_scale_point_ends(low, high, total);
    if t > 0 {
        if scale_point(low, high, t - 1, total) <= code {
            assert(code < scale_point(low, high, (t - 1) + 1, total));
        } else {
            lemma_point_under_code(low, high, code, total, t - 1);
        }
    }
}

/// Under a consistent table that covers its total, every code value within
/// the interval hits a symbol.
pub proof fn lemma_code_hits_a_symbol<T>(table: FrequencyTable<T>, low: int, high: int, code: int)
    requires
        table.consistent(),
        table.covering(),
        0 < table.total_frequency,
        low <= code < high,
    ensures
        locate(table, low, high, code) is Some,
        hits(table, low, high, code, locate(table, low, high, code).unwrap()),
{
    let total = table.total_frequency as int;
    lemma_scale_point_ends(low, high, total);
    lemma_point_under_code(low, high, code, total, total);
    let x = choose|x: int|
        0 <= x < total && #[trigger] scale_point(low, high, x, total) <= code < scale_point(
            low,
            high,
            x + 1,
            total,
        );
    assert(holds_point(table.intervals, x));
    let k = choose|k: T| #[trigger]
        table.intervals.contains_key(k) && table.intervals[k].0 <= x < table.intervals[k].1;
    let interval = table.intervals[k];
    lemma_scale_point_monotonic(low, high, interval.0 as int, x, total);
    lemma_scale_point_monotonic(low, high, x + 1, interval.1 as int, total);
    assert(hits(table, low, high, code, k));
}

/// Renormalising keeps the code value within the interval, and leaves the
/// interval quiescent within the bounds.
pub proof fn lemma_decoder_renormalize_in_range(
    low: int,
    high: int,
    code: int,
    pos: int,
    quarter: int,
    stream: Seq<bool>,
)
    requires
        in_bounds(low, high, quarter),
        low <= code < high,
    ensures
        ({
            let d = decoder_renormalize(low, high, code, pos, quarter, stream);
            &&& in_bounds(d.low, d.high, quarter)
            &&& quiescent(d.low, d.high, quarter)
            &&& d.low <= d.code < d.high
        }),
    decreases 4 * quarter - (high - low),
{
    let next = bit_value(bit_at(stream, pos));
    if high < 2 * quarter {
        lemma_decoder_renormalize_in_range(
            2 * low,
            2 * high,
            2 * code + next,
            pos + 1,
            quarter,
            stream,
        );
    } else if low >= 2 * quarter {
        lemma_decoder_renormalize_in_range(
            2 * (low - 2 * quarter),
            2 * (high - 2 * quarter),
            2 * (code - 2 * quarter) + next,
            pos + 1,
            quarter,
            stream,
        );
    } else if low >= quarter && high < 3 * quarter {
        lemma_decoder_renormalize_in_range(
            2 * (low - quarter),
            2 * (high - quarter),
            2 * (code - quarter) + next,
            pos + 1,
            quarter,
            stream,
        );
    }
}

/// From a quiescent interval that holds the code value, under a consistent
/// table that covers its total, decoding meets no fault and gives as many
/// symbols as asked for.
pub proof fn lemma_decode_symbols_is_total<T>(
    low: int,
    high: int,
    code: int,
    pos: int,
    quarter: int,
    table: FrequencyTable<T>,
    stream: Seq<bool>,
    count: nat,
)
    requires
        in_bounds(low, high, quarter),
        quiescent(low, high, quarter),
        low <= code < high,
        table.consistent(),
        table.covering(),
        0 < table.total_frequency <= quarter,
    ensures
        ({
            let d = decode_symbols(low, high, code, pos, quarter, table, stream, count);
            d.fault is None && d.symbols.len() == count
        }),
    decreases count,
{
    if count > 0 {
        lemma_code_hits_a_symbol(table, low, high, code);
        let symbol = locate(table, low, high, code).unwrap();
        let interval = table.intervals[symbol];
        let total = table.total_frequency as int;
        let new_low = scale_point(low, high, interval.0 as int, total);
        let new_high = scale_point(low, high, interval.1 as int, total);
        lemma_scale_point_bounds(low, high, interval.0 as int, total);
        lemma_scale_point_bounds(low, high, interval.1 as int, total);
        if count > 1 {
            lemma_decoder_renormalize_in_range(new_low, new_high, code, pos, quarter, stream);
            let next = decoder_renormalize(new_low, new_high, code, pos, quarter, stream);
            lemma_decode_symbols_is_total(
                next.low,
                next.high,
                next.code,
                next.pos,
                quarter,
                table,
                stream,
                (count - 1) as nat,
            );
        }
    }
}

/// Decoding is total. Under a consistent table that covers its total, with
/// a total frequency of at least one and at most a quarter of the whole
/// range, any stream is decoded from the whole range, without fault, to a
/// message of the table's message length.
pub proof fn theorem_decoding_is_total<T>(
    table: FrequencyTable<T>,
    precision: nat,
    stream: Seq<bool>,
    start: int,
)
    requires
        precision >= 2,
        table.consistent(),
        table.covering(),
        0 < table.total_frequency <= pow2((precision - 2) as nat),
    ensures
        ({
            let quarter = pow2((precision - 2) as nat) as int;
            let d = decode_message(0, 4 * quarter, quarter, precision, table, stream, start);
            d.fault is None && d.symbols.len() == table.message_length
        }),
{
    let quarter = pow2((precision - 2) as nat) as int;
    lemma_pow2_pos((precision - 2) as nat);
    lemma_pow2_unfold(precision);
    lemma_pow2_unfold((precision - 1) as nat);
    lemma_window_split_first(stream, start, precision);
    if table.message_length > 0 {
        lemma_decode_symbols_is_total(
            0,
            4 * quarter,
            window_value(stream, start, precision),
            start + precision,
            quarter,
            table,
            stream,
            table.message_length as nat,
        );
    }
}

} // verus!
