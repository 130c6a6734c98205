//! What the coder asks of a probability model.

use vstd::prelude::*;
use std::collections::HashMap;
use std::hash::Hash;
use crate::weights::sum;

verus! {

/// Cloning a `T` gives a value equal to the one cloned.
pub open spec fn clone_is_exact<T: Clone>() -> bool {
    forall|a: T, b: T| cloned(a, b) ==> a == b
}

/// `T` can serve as a symbol: its hashing and equality are those of a hash
/// map key, and its clones are exact.
pub open spec fn symbol_type<T: Clone>() -> bool {
    vstd::std_specs::hash::obeys_key_model::<T>() && clone_is_exact::<T>()
}

/// The unsigned integers can serve as symbols.
pub proof fn lemma_unsigned_integers_are_symbols()
    ensures
        symbol_type::<u8>(),
        symbol_type::<u16>(),
        symbol_type::<u32>(),
        symbol_type::<u64>(),
        symbol_type::<usize>(),
{
    broadcast use vstd::std_specs::hash::group_hash_axioms;

}

/// The interval `[iv.0, iv.1)` is not empty and lies within `[0, total)`.
pub open spec fn valid_interval(iv: (u64, u64), total: u64) -> bool {
    iv.0 < iv.1 <= total
}

/// The two intervals share no point.
pub open spec fn disjoint_intervals(a: (u64, u64), b: (u64, u64)) -> bool {
    a.1 <= b.0 || b.1 <= a.0
}

/// The width of each interval of a map.
pub open spec fn widths<T>(intervals: Map<T, (u64, u64)>) -> Map<T, int> {
    Map::new(|k: T| intervals.contains_key(k), |k: T| intervals[k].1 - intervals[k].0)
}

/// Some interval of the map holds the point `x`.
pub open spec fn holds_point<T>(intervals: Map<T, (u64, u64)>, x: int) -> bool {
    exists|k: T| #[trigger] intervals.contains_key(k) && intervals[k].0 <= x < intervals[k].1
}

/// A snapshot of a model: for each symbol its interval of cumulative
/// frequencies, the total frequency, and the number of symbols in the message.
#[verifier::reject_recursive_types(T)]
pub struct FrequencyTable<T> {
    pub intervals: Map<T, (u64, u64)>,
    pub total_frequency: u64,
    pub message_length: u64,
}

impl<T> FrequencyTable<T> {
    /// Every interval is not empty and lies within the total, and the
    /// intervals of two distinct symbols share no point.
    pub open spec fn consistent(self) -> bool {
        &&& forall|k: T| #[trigger]
            self.intervals.contains_key(k) ==> valid_interval(
                self.intervals[k],
                self.total_frequency,
            )
        &&& forall|a: T, b: T|
            #![trigger self.intervals[a], self.intervals[b]]
            self.intervals.contains_key(a) && self.intervals.contains_key(b) && a != b
                ==> disjoint_intervals(self.intervals[a], self.intervals[b])
    }

    /// Every point of `[0, total_frequency)` lies in some symbol's interval.
    pub open spec fn covering(self) -> bool {
        forall|x: int|
            0 <= x < self.total_frequency ==> #[trigger] holds_point(self.intervals, x)
    }

    /// The intervals part `[0, total_frequency)` among finitely many symbols:
    /// they are consistent, they cover the whole of it, and their widths add
    /// up to the total.
    pub open spec fn is_partition(self) -> bool {
        &&& self.intervals.dom().finite()
        &&& self.consistent()
        &&& self.covering()
        &&& sum(widths(self.intervals)) == self.total_frequency
    }

    /// The symbol has an interval.
    pub open spec fn covers(self, symbol: T) -> bool {
        self.intervals.contains_key(symbol)
    }
}

/// A table without symbols, with a total of zero, is a partition.
pub proof fn lemma_empty_table_is_partition<T>(length: u64)
    ensures
        (FrequencyTable::<T> {
            intervals: Map::empty(),
            total_frequency: 0,
            message_length: length,
        }).is_partition(),
{
    assert(widths(Map::<T, (u64, u64)>::empty()) =~= Map::<T, int>::empty());
}

/// A probability model: it reports, for each symbol, an interval of cumulative
/// frequencies, and may adapt to the data it is shown.
pub trait ModelTrait<T: Eq + Hash + Clone> {
    /// The snapshot that the model reports in its present state.
    spec fn table(&self) -> FrequencyTable<T>;

    /// Whether the model is static: the hooks `update_encode` and
    /// `update_decode` then leave its snapshot as it is.
    spec fn is_static(&self) -> bool;

    /// Whether the model can be initialised from `data`.
    spec fn accepts(&self, data: Seq<T>) -> bool;

    /// Initialises the model from the data to encode and returns the
    /// snapshot `(intervals, total frequency, message length)`.
    fn init(&mut self, data: &Vec<T>) -> (r: (&HashMap<T, (u64, u64)>, u64, u64))
        requires
            old(self).accepts(data@),
        ensures
            r.0@ == final(self).table().intervals,
            r.1 == final(self).table().total_frequency,
            r.2 == final(self).table().message_length,
    {
        self.model()
    }

    /// Called by the encoder before each symbol with the part of the message
    /// that is not encoded yet; returns `(intervals, total frequency)`.
    fn update_encode(&mut self, data: &Vec<T>) -> (r: (&HashMap<T, (u64, u64)>, u64))
        ensures
            r.0@ == final(self).table().intervals,
            r.1 == final(self).table().total_frequency,
            old(self).is_static() ==> {
                &&& final(self).is_static()
                &&& final(self).table() == old(self).table()
            },
    {
        let m = self.model();
        (m.0, m.1)
    }

    /// The decoder's counterpart of `update_encode`, shown the symbols decoded
    /// so far; returns `(intervals, total frequency)`.
    fn update_decode(&mut self, data: &Vec<T>) -> (r: (&HashMap<T, (u64, u64)>, u64))
        ensures
            r.0@ == final(self).table().intervals,
            r.1 == final(self).table().total_frequency,
            old(self).is_static() ==> {
                &&& final(self).is_static()
                &&& final(self).table() == old(self).table()
            },
    {
        let m = self.model();
        (m.0, m.1)
    }

    /// The snapshot `(intervals, total frequency, message length)`, the model
    /// left as it is.
    fn model(&self) -> (r: (&HashMap<T, (u64, u64)>, u64, u64))
        ensures
            r.0@ == self.table().intervals,
            r.1 == self.table().total_frequency,
            r.2 == self.table().message_length,
    ;

    /// The number of symbols in the message: the decoder stops after as many.
    fn message_length(&self) -> (n: u64)
        ensures
            n == self.table().message_length,
    {
        self.model().2
    }
}

} // verus!
