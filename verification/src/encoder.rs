//! The encoder: narrows the range by each symbol's interval, emits the bits
//! that the scalings settle, and ends the message.

use vstd::prelude::*;
use std::hash::Hash;
use crate::bitmanipulator::{
    lemma_flush_pads, lemma_write_bits_appends, lemma_write_bits_concat, BitManipulator,
};
use crate::bits::repeat;
use crate::coding::{
    encode_interval, encode_symbols, first_fault, interval_fault, lemma_first_fault,
    lemma_renormalize_terminates, renormalize, resolved, symbol_fault, termination_bits,
};
use crate::error::CodecError;
use crate::models::modeltrait::{symbol_type, ModelTrait};
use crate::models::standard::Standard;
use crate::range::Range;

verus! {

broadcast use vstd::std_specs::hash::group_hash_axioms;

/// An arithmetic encoder over symbols of type `T`: a model, the bit buffer
/// that takes the output, the count of bits deferred by scalings in the
/// middle half, and the coding range.
#[verifier::reject_recursive_types(T)]
pub struct ArithmeticEncoder<T: 'static> {
    pub model: Box<dyn ModelTrait<T>>,
    pub bitmanipulator: BitManipulator,
    pub pending: u64,
    pub range: Range,
}

impl<T: Eq + Hash + Clone + 'static> Default for ArithmeticEncoder<T> {
    /// An encoder with a static model without symbols, an empty bit buffer,
    /// no pending bits, and the whole range at a precision of 32 bits.
    fn default() -> (e: Self)
        ensures
            e.wf(),
            e.model.is_static(),
            e.model.table().intervals == Map::<T, (u64, u64)>::empty(),
            e.model.table().total_frequency == 0,
            e.model.table().message_length == 0,
            e.bitmanipulator@ == crate::bitmanipulator::BitBuffer::empty(),
            e.bitmanipulator.buffer == 0,
            e.bitmanipulator.buffer_size == 0,
            e.bitmanipulator.output@ == Seq::<u8>::empty(),
            e.bitmanipulator.current_bit == 0,
            e.pending == 0,
            e.range.precision == 32,
            e.range.low == 0,
            e.range.high == e.range.whole(),
    {
        Self {
            model: Box::new(Standard::default()),
            bitmanipulator: BitManipulator::default(),
            pending: 0,
            range: Range::new(32),
        }
    }
}

proof fn lemma_prefix_grows(a: Seq<bool>, b: Seq<bool>, c: Seq<bool>)
    requires
        a.is_prefix_of(b),
    ensures
        a.is_prefix_of(b + c),
{
    assert(a =~= (b + c).subrange(0, a.len() as int));
}

impl<T: Eq + Hash + Clone + 'static> ArithmeticEncoder<T> {
    /// The range is well formed and quiescent, and so is the bit buffer.
    pub open spec fn wf(&self) -> bool {
        &&& self.range.wf()
        &&& self.range.quiescent()
        &&& self.bitmanipulator.wf()
    }

    /// The count of pending bits can take `symbols` more symbols and the end
    /// of the message.
    pub open spec fn has_room(&self, symbols: nat) -> bool {
        self.pending + symbols * self.range.precision + 1 <= u64::MAX
    }

    /// Writes a settled bit, then the pending opposite bits.
    pub fn write(&mut self, bit: u8)
        requires
            old(self).bitmanipulator.wf(),
            bit <= 1,
        ensures
            final(self).bitmanipulator.wf(),
            final(self).bitmanipulator@ == old(self).bitmanipulator@.write_bits(
                resolved(bit == 1, old(self).pending as nat),
            ),
            final(self).pending == 0,
            final(self).range == old(self).range,
            final(self).model == old(self).model,
    {
        let ghost b: bool = bit == 1;
        let ghost start = self.bitmanipulator@;
        let ghost total: nat = self.pending as nat;
        let ghost mut written: nat = 0;
        self.bitmanipulator.write_bit(bit);
        proof {
            assert(resolved(b, 0) =~= seq![b]);
            assert(seq![b].drop_last() =~= Seq::<bool>::empty());
            assert(start.write_bits(seq![b]) == start.write_bits(Seq::<bool>::empty()).write_bit(
                b,
            ));
        }
        let opposite: u8 = bit ^ 1;
        assert(opposite <= 1 && (opposite == 1) == !(bit == 1)) by (bit_vector)
            requires
                bit <= 1,
                opposite == bit ^ 1,
        ;
        while self.pending > 0
            invariant
                self.bitmanipulator.wf(),
                written + self.pending == total,
                self.bitmanipulator@ == start.write_bits(resolved(b, written)),
                self.range == old(self).range,
                self.model == old(self).model,
                opposite <= 1,
                (opposite == 1) == !b,
            decreases self.pending,
        {
            self.bitmanipulator.write_bit(opposite);
            self.pending -= 1;
            proof {
                let before = resolved(b, written);
                let after = resolved(b, written + 1);
                assert(after.drop_last() =~= before);
                assert(after.last() == !b);
                written = written + 1;
            }
        }
    }

    /// Scales the range until it is quiescent, writing each bit that a
    /// scaling settles and counting each that it defers.
    pub fn renormalize(&mut self)
        requires
            old(self).range.wf(),
            old(self).bitmanipulator.wf(),
            old(self).pending + old(self).range.precision <= u64::MAX,
        ensures
            final(self).wf(),
            final(self).range.same_marks(&old(self).range),
            final(self).model == old(self).model,
            ({
                let r = renormalize(
                    old(self).range.low as int,
                    old(self).range.high as int,
                    old(self).pending as nat,
                    old(self).range.quarter as int,
                );
                &&& final(self).range.low == r.low
                &&& final(self).range.high == r.high
                &&& final(self).pending == r.pending
                &&& final(self).bitmanipulator@ == old(self).bitmanipulator@.write_bits(r.bits)
            }),
    {
        let ghost quarter: int = self.range.quarter as int;
        let ghost start = self.bitmanipulator@;
        let ghost all = renormalize(
            self.range.low as int,
            self.range.high as int,
            self.pending as nat,
            quarter,
        );
        let ghost mut done: nat = 0;
        proof {
            self.range.lemma_marks();
            lemma_renormalize_terminates(
                self.range.low as int,
                self.range.high as int,
                self.pending as nat,
                quarter,
                self.range.precision as nat,
            );
        }
        loop
            invariant
                self.range.wf(),
                self.range.same_marks(&old(self).range),
                self.range.quarter == quarter,
                self.bitmanipulator.wf(),
                self.model == old(self).model,
                old(self).pending + old(self).range.precision <= u64::MAX,
                all.shifts <= old(self).range.precision,
                self.pending <= old(self).pending + done,
                ({
                    let r = renormalize(
                        self.range.low as int,
                        self.range.high as int,
                        self.pending as nat,
                        quarter,
                    );
                    &&& r.low == all.low
                    &&& r.high == all.high
                    &&& r.pending == all.pending
                    &&& done + r.shifts == all.shifts
                    &&& self.bitmanipulator@.write_bits(r.bits) == start.write_bits(all.bits)
                }),
            ensures
                self.range.quiescent(),
                self.range.low == all.low,
                self.range.high == all.high,
                self.pending == all.pending,
                self.bitmanipulator@ == start.write_bits(all.bits),
            decreases self.range.whole() - (self.range.high - self.range.low),
        {
            proof {
                self.range.lemma_marks();
            }
            let ghost here = renormalize(
                self.range.low as int,
                self.range.high as int,
                self.pending as nat,
                quarter,
            );
            let ghost buffer = self.bitmanipulator@;
            let ghost pending: nat = self.pending as nat;
            if self.range.is_bottom_half() {
                self.write(0);
                self.range.scale_bottom_half();
                proof {
                    let next = renormalize(
                        self.range.low as int,
                        self.range.high as int,
                        0,
                        quarter,
                    );
                    assert(here.bits == resolved(false, pending) + next.bits);
                    lemma_write_bits_concat(buffer, resolved(false, pending), next.bits);
                }
            } else if self.range.is_above_half() {
                self.write(1);
                self.range.scale_above_half();
                proof {
                    let next = renormalize(
                        self.range.low as int,
                        self.range.high as int,
                        0,
                        quarter,
                    );
                    assert(here.bits == resolved(true, pending) + next.bits);
                    lemma_write_bits_concat(buffer, resolved(true, pending), next.bits);
                }
            } else if self.range.is_middle_half() {
                self.pending += 1;
                self.range.scale_middle_half();
            } else {
                proof {
                    assert(here.bits =~= Seq::<bool>::empty());
                }
                break ;
            }
            proof {
                done = done + 1;
            }
        }
    }

    /// One symbol's step, given what the model's table holds for the symbol
    /// (`found`) and the total frequency: refuses a total above the quarter
    /// mark, a symbol without interval, and an interval that is empty or
    /// leaves the total; else narrows the range by the interval and
    /// renormalises. A refusal changes nothing.
    pub fn encode_interval(&mut self, found: Option<(u64, u64)>, cumulative_frequency: u64) -> (r:
        Result<(), CodecError>)
        requires
            old(self).wf(),
            old(self).pending + old(self).range.precision <= u64::MAX,
        ensures
            final(self).wf(),
            final(self).range.same_marks(&old(self).range),
            final(self).model == old(self).model,
            final(self).pending <= old(self).pending + old(self).range.precision,
            match interval_fault(found, cumulative_frequency, old(self).range.quarter as int) {
                Some(fault) => {
                    &&& r == Err::<(), CodecError>(fault)
                    &&& final(self).range == old(self).range
                    &&& final(self).pending == old(self).pending
                    &&& final(self).bitmanipulator == old(self).bitmanipulator
                },
                None => {
                    let e = encode_interval(
                        old(self).range.low as int,
                        old(self).range.high as int,
                        old(self).pending as nat,
                        old(self).range.quarter as int,
                        found.unwrap(),
                        cumulative_frequency,
                    );
                    &&& r is Ok
                    &&& final(self).range.low == e.low
                    &&& final(self).range.high == e.high
                    &&& final(self).pending == e.pending
                    &&& final(self).bitmanipulator@ == old(self).bitmanipulator@.write_bits(e.bits)
                },
            },
    {
        if cumulative_frequency > self.range.quarter {
            return Err(CodecError::TotalFrequencyOverflow);
        }
        let (symbol_low, symbol_high) = match found {
            None => {
                return Err(CodecError::UnknownSymbol);
            },
            Some(interval) => interval,
        };
        if !(symbol_low < symbol_high && symbol_high <= cumulative_frequency) {
            return Err(CodecError::RangeCollapse);
        }
        self.range.update_range(symbol_low, symbol_high, cumulative_frequency);
        proof {
            self.range.lemma_marks();
            lemma_renormalize_terminates(
                self.range.low as int,
                self.range.high as int,
                self.pending as nat,
                self.range.quarter as int,
                self.range.precision as nat,
            );
        }
        self.renormalize();
        Ok(())
    }

    /// Ends the message: defers one more bit, settles the lot with a 1 if the
    /// range starts above the quarter mark and with a 0 if not, and flushes
    /// the bit buffer.
    pub fn finish(&mut self)
        requires
            old(self).wf(),
            old(self).pending < u64::MAX,
        ensures
            final(self).wf(),
            final(self).range == old(self).range,
            final(self).model == old(self).model,
            final(self).pending == 0,
            final(self).bitmanipulator.buffer == 0,
            final(self).bitmanipulator.buffer_size == 0,
            final(self).bitmanipulator@ == old(self).bitmanipulator@.write_bits(
                termination_bits(
                    old(self).range.low as int,
                    old(self).pending as nat,
                    old(self).range.quarter as int,
                ),
            ).flush(),
    {
        self.pending += 1;
        if self.range.is_above_quarter() {
            self.write(1);
        } else {
            self.write(0);
        }
        self.bitmanipulator.flush();
    }

    /// Encodes `data` into the bit buffer. Before each symbol the model is
    /// shown the part of the message not yet encoded and asked for its table;
    /// the first symbol that the table cannot encode stops the encoder with
    /// that symbol's fault, the symbols before it encoded and the message not
    /// ended. With a static model the outcome is the one that the model's
    /// table fixes.
    pub fn encode(&mut self, data: Vec<T>) -> (r: Result<(), CodecError>)
        requires
            old(self).wf(),
            old(self).has_room(data.len() as nat),
            symbol_type::<T>(),
        ensures
            final(self).wf(),
            final(self).range.same_marks(&old(self).range),
            final(self).bitmanipulator@.cursor == old(self).bitmanipulator@.cursor,
            old(self).bitmanipulator@.written().is_prefix_of(final(self).bitmanipulator@.written()),
            match r {
                Ok(()) => {
                    &&& final(self).pending == 0
                    &&& final(self).bitmanipulator.buffer == 0
                    &&& final(self).bitmanipulator.buffer_size == 0
                },
                Err(fault) => fault == CodecError::TotalFrequencyOverflow || fault
                    == CodecError::UnknownSymbol || fault == CodecError::RangeCollapse,
            },
            data@.len() == 0 ==> {
                &&& r is Ok
                &&& final(self).model == old(self).model
                &&& final(self).range == old(self).range
                &&& final(self).bitmanipulator@ == old(self).bitmanipulator@.write_bits(
                    termination_bits(
                        old(self).range.low as int,
                        old(self).pending as nat,
                        old(self).range.quarter as int,
                    ),
                ).flush()
            },
            old(self).model.is_static() ==> ({
                let table = old(self).model.table();
                let quarter = old(self).range.quarter as int;
                let n = first_fault(table, quarter, data@);
                let e = encode_symbols(
                    old(self).range.low as int,
                    old(self).range.high as int,
                    old(self).pending as nat,
                    quarter,
                    table,
                    data@.take(n as int),
                );
                &&& final(self).model.is_static()
                &&& final(self).model.table() == table
                &&& final(self).range.low == e.low
                &&& final(self).range.high == e.high
                &&& if n == data.len() {
                    &&& r is Ok
                    &&& final(self).pending == 0
                    &&& final(self).bitmanipulator@ == old(self).bitmanipulator@.write_bits(
                        e.bits + termination_bits(e.low, e.pending, quarter),
                    ).flush()
                } else {
                    &&& r == Err::<(), CodecError>(
                        symbol_fault(table, quarter, data@[n as int]).unwrap(),
                    )
                    &&& final(self).pending == e.pending
                    &&& final(self).bitmanipulator@ == old(self).bitmanipulator@.write_bits(e.bits)
                }
            }),
    {
        let ghost fixed: bool = self.model.is_static();
        let ghost table = self.model.table();
        let ghost quarter: int = self.range.quarter as int;
        let ghost n: int = first_fault(table, quarter, data@) as int;
        let ghost start = self.bitmanipulator@;
        let ghost all = encode_symbols(
            self.range.low as int,
            self.range.high as int,
            self.pending as nat,
            quarter,
            table,
            data@.take(n),
        );
        let mut rest = data.clone();
        proof {
            assert(rest@ =~= data@);
            assert(data@.skip(0) =~= data@);
            lemma_first_fault(table, quarter, data@);
            assert(data@.subrange(0, n) =~= data@.take(n));
        }
        for i in 0..data.len()
            invariant
                self.wf(),
                self.range.same_marks(&old(self).range),
                self.range.quarter == quarter,
                symbol_type::<T>(),
                rest@ == data@.skip(i as int),
                self.bitmanipulator@.cursor == old(self).bitmanipulator@.cursor,
                old(self).bitmanipulator@.written().is_prefix_of(self.bitmanipulator@.written()),
                self.pending + (data.len() - i) * self.range.precision + 1 <= u64::MAX,
                n == first_fault(table, quarter, data@),
                0 <= n <= data.len(),
                fixed == old(self).model.is_static(),
                table == old(self).model.table(),
                start == old(self).bitmanipulator@,
                all == encode_symbols(
                    old(self).range.low as int,
                    old(self).range.high as int,
                    old(self).pending as nat,
                    quarter,
                    table,
                    data@.take(n),
                ),
                data.len() == 0 ==> {
                    &&& self.model == old(self).model
                    &&& self.range == old(self).range
                    &&& self.pending == old(self).pending
                    &&& self.bitmanipulator@ == start
                },
                fixed ==> self.model.is_static() && self.model.table() == table,
                fixed ==> i <= n,
                fixed ==> ({
                    let togo = encode_symbols(
                        self.range.low as int,
                        self.range.high as int,
                        self.pending as nat,
                        quarter,
                        table,
                        data@.subrange(i as int, n),
                    );
                    &&& togo.low == all.low
                    &&& togo.high == all.high
                    &&& togo.pending == all.pending
                    &&& self.bitmanipulator@.write_bits(togo.bits) == start.write_bits(all.bits)
                }),
        {
            let ghost buffer = self.bitmanipulator@;
            let ghost low: int = self.range.low as int;
            let ghost high: int = self.range.high as int;
            let ghost pending: nat = self.pending as nat;
            proof {
                let p: int = self.range.precision as int;
                let m: int = data.len() - i;
                assert(m * p == (m - 1) * p + p) by (nonlinear_arith);
                assert((m - 1) * p >= 0) by (nonlinear_arith)
                    requires
                        m >= 1,
                        p >= 0,
                ;
            }
            let symbol = &data[i];
            let (found, total): (Option<(u64, u64)>, u64) = {
                let (intervals, total) = self.model.update_encode(&rest);
                match intervals.get(symbol) {
                    Some(interval) => (Some(*interval), total),
                    None => (None, total),
                }
            };
            proof {
                lemma_first_fault(table, quarter, data@);
                if fixed {
                    assert(interval_fault(found, total, quarter) == symbol_fault(
                        table,
                        quarter,
                        data@[i as int],
                    ));
                    if i < n {
                        let part = data@.subrange(i as int, n);
                        assert(part[0] == data@[i as int]);
                        assert(part.drop_first() =~= data@.subrange(i + 1, n));
                    } else {
                        assert(data@.subrange(i as int, n) =~= Seq::<T>::empty());
                    }
                }
            }
            match self.encode_interval(found, total) {
                Ok(()) => {},
                Err(fault) => {
                    proof {
                        if fixed {
                            let togo = encode_symbols(
                                low,
                                high,
                                pending,
                                quarter,
                                table,
                                data@.subrange(i as int, n),
                            );
                            assert(togo.bits =~= Seq::<bool>::empty());
                        }
                    }
                    return Err(fault);
                },
            }
            proof {
                let step = encode_interval(low, high, pending, quarter, found.unwrap(), total);
                let emitted = step.bits;
                lemma_write_bits_appends(buffer, emitted);
                lemma_prefix_grows(old(self).bitmanipulator@.written(), buffer.written(), emitted);
                if fixed {
                    let first = encode_interval(
                        low,
                        high,
                        pending,
                        quarter,
                        table.intervals[data@[i as int]],
                        table.total_frequency,
                    );
                    let togo = encode_symbols(
                        first.low,
                        first.high,
                        first.pending,
                        quarter,
                        table,
                        data@.subrange(i + 1, n),
                    );
                    lemma_write_bits_concat(buffer, first.bits, togo.bits);
                }
                assert(rest@.remove(0) =~= data@.skip(i + 1));
            }
            rest.remove(0);
        }
        let ghost buffer = self.bitmanipulator@;
        proof {
            let ending = termination_bits(self.range.low as int, self.pending as nat, quarter);
            lemma_write_bits_appends(buffer, ending);
            lemma_flush_pads(buffer.write_bits(ending));
            lemma_prefix_grows(old(self).bitmanipulator@.written(), buffer.written(), ending);
            lemma_prefix_grows(
                old(self).bitmanipulator@.written(),
                buffer.written() + ending,
                repeat(false, buffer.write_bits(ending).padding()),
            );
            assert(buffer.write_bits(ending).flush().written() =~= buffer.write_bits(
                ending,
            ).flush().stored());
            if fixed {
                assert(data@.subrange(data.len() as int, n) =~= Seq::<T>::empty());
                lemma_write_bits_concat(
                    start,
                    all.bits,
                    termination_bits(all.low, all.pending, quarter),
                );
            }
        }
        self.finish();
        Ok(())
    }
}

} // verus!
