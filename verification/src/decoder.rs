//! The decoder: follows the encoder's range with a code value read from the
//! bit stream, and finds each symbol as the one whose part of the range
//! holds the code value.

use vstd::prelude::*;
use std::collections::HashMap;
use std::hash::Hash;
use crate::bitmanipulator::{lemma_advance_by, lemma_advance_by_twice, BitManipulator};
use crate::bits::window_value;
use crate::coding::{
    code_in, decode_message, decode_symbols, decoder_renormalize, hits,
    lemma_decoder_renormalize_past_end, lemma_locate,
};
use crate::error::CodecError;
use crate::models::modeltrait::{symbol_type, ModelTrait};
use crate::models::standard::Standard;
use crate::range::Range;

verus! {

broadcast use vstd::std_specs::hash::group_hash_axioms;

/// An arithmetic decoder over symbols of type `T`: a model, the bit buffer
/// that holds the encoded stream, and the coding range.
#[verifier::reject_recursive_types(T)]
pub struct ArithmeticDecoder<T: 'static> {
    pub model: Box<dyn ModelTrait<T>>,
    pub bitmanipulator: BitManipulator,
    pub range: Range,
}

impl<T: Eq + Hash + Clone + 'static> Default for ArithmeticDecoder<T> {
    /// A decoder with a static model without symbols, an empty bit buffer,
    /// and the whole range at a precision of 32 bits.
    fn default() -> (d: Self)
        ensures
            d.wf(),
            d.model.is_static(),
            d.model.table().intervals == Map::<T, (u64, u64)>::empty(),
            d.model.table().total_frequency == 0,
            d.model.table().message_length == 0,
            d.bitmanipulator@ == crate::bitmanipulator::BitBuffer::empty(),
            d.bitmanipulator.buffer == 0,
            d.bitmanipulator.buffer_size == 0,
            d.bitmanipulator.output@ == Seq::<u8>::empty(),
            d.bitmanipulator.current_bit == 0,
            d.range.precision == 32,
            d.range.low == 0,
            d.range.high == d.range.whole(),
    {
        Self {
            model: Box::new(Standard::default()),
            bitmanipulator: BitManipulator::new(),
            range: Range::new(32),
        }
    }
}

/// Whether a message of `length` symbols is complete once `emitted` symbols
/// are out; more symbols out than the message has is a fault.
pub fn message_complete(emitted: u64, length: u64) -> (r: Result<bool, CodecError>)
    ensures
        r == if emitted > length {
            Err::<bool, CodecError>(CodecError::ModelDesync)
        } else {
            Ok::<bool, CodecError>(emitted == length)
        },
{
    if emitted == length {
        Ok(true)
    } else if emitted > length {
        Err(CodecError::ModelDesync)
    } else {
        Ok(false)
    }
}

impl<T: Eq + Hash + Clone + 'static> ArithmeticDecoder<T> {
    /// The range is well formed and quiescent, and the cursor can reach every
    /// stored bit.
    pub open spec fn wf(&self) -> bool {
        &&& self.range.wf()
        &&& self.range.quiescent()
        &&& self.bitmanipulator.addressable()
    }

    /// Reads the first code value: the next `precision` bits of the stream,
    /// most significant first.
    pub fn load_code(&mut self) -> (code: u64)
        requires
            old(self).range.wf(),
            old(self).bitmanipulator.addressable(),
        ensures
            code == window_value(
                old(self).bitmanipulator@.stored(),
                old(self).bitmanipulator@.cursor as int,
                old(self).range.precision as nat,
            ),
            code < old(self).range.whole(),
            final(self).bitmanipulator@ == old(self).bitmanipulator@.advance_by(
                old(self).range.precision as nat,
            ),
            final(self).bitmanipulator.output == old(self).bitmanipulator.output,
            final(self).bitmanipulator.buffer == old(self).bitmanipulator.buffer,
            final(self).bitmanipulator.buffer_size == old(self).bitmanipulator.buffer_size,
            final(self).range == old(self).range,
            final(self).model == old(self).model,
    {
        let ghost start = self.bitmanipulator@;
        let ghost stream = start.stored();
        let mut code: u64 = 0;
        let mut i: u8 = 0;
        proof {
            lemma_advance_by(start, 0);
            vstd::arithmetic::power2::lemma2_to64();
        }
        while i < self.range.precision
            invariant
                self.range == old(self).range,
                self.model == old(self).model,
                self.range.wf(),
                self.bitmanipulator.addressable(),
                self.bitmanipulator.output == old(self).bitmanipulator.output,
                self.bitmanipulator.buffer == old(self).bitmanipulator.buffer,
                self.bitmanipulator.buffer_size == old(self).bitmanipulator.buffer_size,
                start == old(self).bitmanipulator@,
                stream == start.stored(),
                i <= self.range.precision,
                self.bitmanipulator@ == start.advance_by(i as nat),
                code == window_value(stream, start.cursor as int, i as nat),
                code < vstd::arithmetic::power2::pow2(i as nat),
            decreases self.range.precision - i,
        {
            proof {
                lemma_advance_by(start, i as nat);
                vstd::arithmetic::power2::lemma_pow2_unfold((i + 1) as nat);
                if i + 1 < 62 {
                    vstd::arithmetic::power2::lemma_pow2_strictly_increases((i + 1) as nat, 62);
                }
                vstd::arithmetic::power2::lemma2_to64_rest();
            }
            let bit = self.bitmanipulator.read_next_bit();
            code = 2 * code + bit as u64;
            i += 1;
        }
        proof {
            self.range.lemma_marks();
        }
        code
    }

    /// Looks for a symbol whose part of the range holds the code value, among
    /// the symbols with a valid interval; returns it with its interval.
    pub fn locate(
        &self,
        intervals: &HashMap<T, (u64, u64)>,
        cumulative_frequency: u64,
        code: u64,
    ) -> (r: Option<(T, u64, u64)>)
        requires
            self.range.wf(),
            symbol_type::<T>(),
        ensures
            match r {
                Some((symbol, symbol_low, symbol_high)) => {
                    &&& intervals@.contains_key(symbol)
                    &&& intervals@[symbol] == (symbol_low, symbol_high)
                    &&& code_in(
                        self.range.low as int,
                        self.range.high as int,
                        code as int,
                        (symbol_low, symbol_high),
                        cumulative_frequency,
                    )
                },
                None => forall|k: T|
                    intervals@.contains_key(k) ==> !code_in(
                        self.range.low as int,
                        self.range.high as int,
                        code as int,
                        #[trigger] intervals@[k],
                        cumulative_frequency,
                    ),
            },
    {
        for (key, interval) in it: intervals.iter()
            invariant
                self.range.wf(),
                symbol_type::<T>(),
                forall|j: int|
                    0 <= j < it.index() ==> !code_in(
                        self.range.low as int,
                        self.range.high as int,
                        code as int,
                        *(#[trigger] it.seq()[j]).1,
                        cumulative_frequency,
                    ),
        {
            let (symbol_low, symbol_high) = *interval;
            if symbol_low < symbol_high && symbol_high <= cumulative_frequency {
                let (temp_low, temp_high) = self.range.calculate_range(
                    symbol_low,
                    symbol_high,
                    cumulative_frequency,
                );
                if temp_low <= code && code < temp_high {
                    let symbol = key.clone();
                    proof {
                        assert(cloned(*key, symbol));
                        assert(it.seq()[it.index()] == (key, interval));
                    }
                    return Some((symbol, symbol_low, symbol_high));
                }
            }
        }
        None
    }

    /// Scales the range until it is quiescent, and the code value with it,
    /// taking one bit from the stream at each scaling; returns the new code
    /// value.
    pub fn renormalize(&mut self, code: u64) -> (next: u64)
        requires
            old(self).range.wf(),
            old(self).bitmanipulator.addressable(),
            old(self).range.low <= code < old(self).range.high,
        ensures
            final(self).wf(),
            final(self).range.same_marks(&old(self).range),
            final(self).model == old(self).model,
            final(self).bitmanipulator.output == old(self).bitmanipulator.output,
            final(self).bitmanipulator.buffer == old(self).bitmanipulator.buffer,
            final(self).bitmanipulator.buffer_size == old(self).bitmanipulator.buffer_size,
            final(self).range.low <= next < final(self).range.high,
            ({
                let d = decoder_renormalize(
                    old(self).range.low as int,
                    old(self).range.high as int,
                    code as int,
                    old(self).bitmanipulator@.cursor as int,
                    old(self).range.quarter as int,
                    old(self).bitmanipulator@.stored(),
                );
                &&& final(self).range.low == d.low
                &&& final(self).range.high == d.high
                &&& next == d.code
                &&& d.pos >= old(self).bitmanipulator@.cursor
                &&& final(self).bitmanipulator@ == old(self).bitmanipulator@.advance_by(
                    (d.pos - old(self).bitmanipulator@.cursor) as nat,
                )
            }),
    {
        let ghost quarter: int = self.range.quarter as int;
        let ghost start = self.bitmanipulator@;
        let ghost stream = start.stored();
        let ghost all = decoder_renormalize(
            self.range.low as int,
            self.range.high as int,
            code as int,
            start.cursor as int,
            quarter,
            stream,
        );
        let ghost mut taken: nat = 0;
        let mut decoding_buffer: u64 = code;
        proof {
            lemma_advance_by(start, 0);
        }
        loop
            invariant
                self.range.wf(),
                self.range.same_marks(&old(self).range),
                self.range.quarter == quarter,
                self.model == old(self).model,
                self.bitmanipulator.addressable(),
                self.bitmanipulator.output == old(self).bitmanipulator.output,
                self.bitmanipulator.buffer == old(self).bitmanipulator.buffer,
                self.bitmanipulator.buffer_size == old(self).bitmanipulator.buffer_size,
                start == old(self).bitmanipulator@,
                stream == start.stored(),
                self.bitmanipulator@ == start.advance_by(taken),
                self.range.low <= decoding_buffer < self.range.high,
                all == decoder_renormalize(
                    self.range.low as int,
                    self.range.high as int,
                    decoding_buffer as int,
                    (start.cursor + taken) as int,
                    quarter,
                    stream,
                ),
            ensures
                self.range.quiescent(),
                self.range.low == all.low,
                self.range.high == all.high,
                decoding_buffer == all.code,
                all.pos == start.cursor + taken,
                self.bitmanipulator@ == start.advance_by(taken),
            decreases self.range.whole() - (self.range.high - self.range.low),
        {
            proof {
                self.range.lemma_marks();
                lemma_advance_by(start, taken);
            }
            if self.range.is_bottom_half() {
                self.range.scale_bottom_half();
                decoding_buffer = 2 * decoding_buffer + self.bitmanipulator.read_next_bit() as u64;
            } else if self.range.is_above_half() {
                self.range.scale_above_half();
                decoding_buffer = (decoding_buffer - self.range.half) * 2
                    + self.bitmanipulator.read_next_bit() as u64;
            } else if self.range.is_middle_half() {
                self.range.scale_middle_half();
                decoding_buffer = (decoding_buffer - self.range.quarter) * 2
                    + self.bitmanipulator.read_next_bit() as u64;
            } else {
                break ;
            }
            proof {
                taken = taken + 1;
            }
        }
        decoding_buffer
    }

    /// Decodes as many symbols as the model's message length says, from the
    /// bit buffer at its cursor; none, and no bit is read, if that length is
    /// zero. A total frequency above the quarter mark, or a code value that
    /// falls in no symbol's part of the range, stops the decoder with a
    /// fault. With a consistent table the outcome is the one that the table
    /// and the stream fix.
    pub fn decode(&mut self) -> (r: Result<Vec<T>, CodecError>)
        requires
            old(self).wf(),
            symbol_type::<T>(),
        ensures
            final(self).range.wf(),
            final(self).range.same_marks(&old(self).range),
            final(self).model == old(self).model,
            final(self).bitmanipulator.output == old(self).bitmanipulator.output,
            final(self).bitmanipulator.buffer == old(self).bitmanipulator.buffer,
            final(self).bitmanipulator.buffer_size == old(self).bitmanipulator.buffer_size,
            match r {
                Ok(symbols) => symbols@.len() == old(self).model.table().message_length,
                Err(fault) => fault == CodecError::TotalFrequencyOverflow || fault
                    == CodecError::MalformedStream,
            },
            old(self).model.table().message_length == 0 ==> {
                &&& r matches Ok(symbols) && symbols@ == Seq::<T>::empty()
                &&& final(self).bitmanipulator == old(self).bitmanipulator
                &&& final(self).range == old(self).range
            },
            r == Err::<Vec<T>, CodecError>(CodecError::TotalFrequencyOverflow) <==> ({
                &&& old(self).model.table().message_length > 0
                &&& old(self).model.table().total_frequency > old(self).range.quarter
            }),
            old(self).model.table().consistent() ==> ({
                let d = decode_message(
                    old(self).range.low as int,
                    old(self).range.high as int,
                    old(self).range.quarter as int,
                    old(self).range.precision as nat,
                    old(self).model.table(),
                    old(self).bitmanipulator@.stored(),
                    old(self).bitmanipulator@.cursor as int,
                );
                &&& final(self).range.low == d.state.low
                &&& final(self).range.high == d.state.high
                &&& d.state.pos >= old(self).bitmanipulator@.cursor
                &&& final(self).bitmanipulator@ == old(self).bitmanipulator@.advance_by(
                    (d.state.pos - old(self).bitmanipulator@.cursor) as nat,
                )
                &&& match r {
                    Ok(symbols) => d.fault is None && symbols@ == d.symbols,
                    Err(fault) => d.fault == Some(fault),
                }
            }),
    {
        let ghost table = self.model.table();
        let ghost quarter: int = self.range.quarter as int;
        let ghost start = self.bitmanipulator@;
        let ghost stream = start.stored();
        let ghost sound: bool = table.consistent();
        let mut decoded_data: Vec<T> = Vec::new();
        let mut cumulated_length_so_far: u64 = 0;
        proof {
            lemma_advance_by(start, 0);
        }
        if self.model.message_length() == 0 {
            return Ok(decoded_data);
        }
        let mut decoding_buffer: u64 = self.load_code();
        let ghost mut taken: nat = self.range.precision as nat;
        let ghost all = decode_symbols::<T>(
            self.range.low as int,
            self.range.high as int,
            decoding_buffer as int,
            (start.cursor + taken) as int,
            quarter,
            table,
            stream,
            table.message_length as nat,
        );
        loop
            invariant
                self.wf(),
                symbol_type::<T>(),
                self.range.same_marks(&old(self).range),
                self.range.quarter == quarter,
                self.model == old(self).model,
                self.bitmanipulator.output == old(self).bitmanipulator.output,
                self.bitmanipulator.buffer == old(self).bitmanipulator.buffer,
                self.bitmanipulator.buffer_size == old(self).bitmanipulator.buffer_size,
                table == old(self).model.table(),
                sound == table.consistent(),
                start == old(self).bitmanipulator@,
                stream == start.stored(),
                self.bitmanipulator@ == start.advance_by(taken),
                cumulated_length_so_far < table.message_length,
                decoded_data@.len() == cumulated_length_so_far,
                sound ==> ({
                    let togo = decode_symbols::<T>(
                        self.range.low as int,
                        self.range.high as int,
                        decoding_buffer as int,
                        (start.cursor + taken) as int,
                        quarter,
                        table,
                        stream,
                        (table.message_length - cumulated_length_so_far) as nat,
                    );
                    &&& all.state == togo.state
                    &&& all.fault == togo.fault
                    &&& all.symbols == decoded_data@ + togo.symbols
                }),
                sound ==> all == decode_message(
                    old(self).range.low as int,
                    old(self).range.high as int,
                    quarter,
                    old(self).range.precision as nat,
                    table,
                    stream,
                    start.cursor as int,
                ),
            decreases table.message_length - cumulated_length_so_far,
        {
            let ghost low: int = self.range.low as int;
            let ghost high: int = self.range.high as int;
            let ghost before = decoded_data@;
            let (located, cumulative_frequency, length): (Option<(T, u64, u64)>, u64, u64) = {
                let (intervals, cumulative_frequency, length) = self.model.model();
                if cumulative_frequency > self.range.quarter {
                    return Err(CodecError::TotalFrequencyOverflow);
                }
                let located = self.locate(intervals, cumulative_frequency, decoding_buffer);
                (located, cumulative_frequency, length)
            };
            let (symbol, symbol_low, symbol_high) = match located {
                None => {
                    proof {
                        if sound {
                            let code: int = decoding_buffer as int;
                            assert forall|k: T| !hits(table, low, high, code, k) by {
                                if table.intervals.contains_key(k) {
                                    assert(!code_in(
                                        low,
                                        high,
                                        code,
                                        table.intervals[k],
                                        cumulative_frequency,
                                    ));
                                }
                            }
                        }
                    }
                    return Err(CodecError::MalformedStream);
                },
                Some(found) => found,
            };
            proof {
                if sound {
                    lemma_locate(table, low, high, decoding_buffer as int, symbol);
                }
            }
            decoded_data.push(symbol);
            self.range.update_range(symbol_low, symbol_high, cumulative_frequency);
            cumulated_length_so_far += 1;
            match message_complete(cumulated_length_so_far, length) {
                Err(fault) => {
                    return Err(fault);
                },
                Ok(true) => {
                    proof {
                        assert(before + seq![symbol] =~= decoded_data@);
                    }
                    return Ok(decoded_data);
                },
                Ok(false) => {},
            }
            let ghost cursor: int = self.bitmanipulator@.cursor as int;
            let ghost position: int = (start.cursor + taken) as int;
            let ghost narrow_low: int = self.range.low as int;
            let ghost narrow_high: int = self.range.high as int;
            let ghost code: int = decoding_buffer as int;
            decoding_buffer = self.renormalize(decoding_buffer);
            proof {
                lemma_decoder_renormalize_past_end(
                    narrow_low,
                    narrow_high,
                    code,
                    cursor,
                    position,
                    quarter,
                    stream,
                );
                let d = decoder_renormalize(narrow_low, narrow_high, code, cursor, quarter, stream);
                let steps: nat = (d.pos - cursor) as nat;
                lemma_advance_by_twice(start, taken, steps);
                taken = taken + steps;
                if sound {
                    let rest = decode_symbols::<T>(
                        self.range.low as int,
                        self.range.high as int,
                        decoding_buffer as int,
                        (start.cursor + taken) as int,
                        quarter,
                        table,
                        stream,
                        (table.message_length - cumulated_length_so_far) as nat,
                    );
                    assert(before + (seq![symbol] + rest.symbols) =~= decoded_data@ + rest.symbols);
                }
            }
        }
    }
}

} // verus!
