//! The static model: a frequency table counted once from the whole message.

use vstd::prelude::*;
use std::collections::HashMap;
use std::hash::Hash;
use crate::models::modeltrait::{
    disjoint_intervals, holds_point, lemma_empty_table_is_partition, symbol_type, widths,
    FrequencyTable, ModelTrait,
};
use crate::weights::{
    lemma_occurrences, lemma_sum_insert, lemma_sum_remove, lemma_sum_update, occurrences, sum,
};

verus! {

broadcast use vstd::std_specs::hash::group_hash_axioms;

/// The counts of a map, as integers.
pub open spec fn counts<T>(frequencies: Map<T, u64>) -> Map<T, int> {
    Map::new(|k: T| frequencies.contains_key(k), |k: T| frequencies[k] as int)
}

/// A sum of counts is not negative.
pub proof fn lemma_counts_sum_nonnegative<T>(frequencies: Map<T, u64>)
    requires
        frequencies.dom().finite(),
    ensures
        sum(counts(frequencies)) >= 0,
    decreases frequencies.dom().len(),
{
    let w = counts(frequencies);
    assert(w.dom() =~= frequencies.dom());
    if w.dom().len() > 0 {
        let k = w.dom().choose();
        assert(w.remove(k) =~= counts(frequencies.remove(k)));
        lemma_counts_sum_nonnegative(frequencies.remove(k));
    }
}

/// A static model. `intervals` gives each symbol its interval of cumulative
/// frequencies, `cumulative_frequency` is their total, `length` the number
/// of symbols of the message. The hooks of the coder leave it as it is;
/// `init` builds its table anew from a message.
#[verifier::reject_recursive_types(T)]
pub struct Standard<T> {
    pub intervals: HashMap<T, (u64, u64)>,
    pub cumulative_frequency: u64,
    pub length: u64,
    pub data: Vec<T>,
}

impl<T> Default for Standard<T> {
    /// A model without symbols: its table parts the empty range.
    fn default() -> (m: Self)
        ensures
            m.intervals@ == Map::<T, (u64, u64)>::empty(),
            m.cumulative_frequency == 0,
            m.length == 0,
            m.data@ == Seq::<T>::empty(),
            (FrequencyTable {
                intervals: m.intervals@,
                total_frequency: m.cumulative_frequency,
                message_length: m.length,
            }).is_partition(),
    {
        proof {
            lemma_empty_table_is_partition::<T>(0);
        }
        Standard { intervals: HashMap::new(), cumulative_frequency: 0, length: 0, data: Vec::new() }
    }
}

impl<T: Eq + Hash + Clone> ModelTrait<T> for Standard<T> {
    open spec fn table(&self) -> FrequencyTable<T> {
        FrequencyTable {
            intervals: self.intervals@,
            total_frequency: self.cumulative_frequency,
            message_length: self.length,
        }
    }

    open spec fn is_static(&self) -> bool {
        true
    }

    /// Any data, provided that its symbols can key a hash map.
    open spec fn accepts(&self, data: Seq<T>) -> bool {
        symbol_type::<T>()
    }

    /// Builds the table of `data` in place of the one held: counts the
    /// symbols of `data` and gives each distinct symbol, in no fixed order,
    /// the next free interval from 0 up, as wide as the symbol is frequent.
    /// The intervals part `[0, data.len())` among the symbols of `data`.
    fn init(&mut self, data: &Vec<T>) -> (r: (&HashMap<T, (u64, u64)>, u64, u64))
        ensures
            final(self).table().is_partition(),
            final(self).length == data.len(),
            final(self).cumulative_frequency == data.len(),
            final(self).data == old(self).data,
            forall|k: T| final(self).intervals@.contains_key(k) <==> data@.contains(k),
            forall|k: T|
                data@.contains(k) ==> {
                    let iv = #[trigger] final(self).intervals@[k];
                    iv.1 - iv.0 == occurrences(data@, k)
                },
    {
        self.intervals.clear();
        self.cumulative_frequency = 0;
        let mut frequencies: HashMap<T, u64> = HashMap::new();
        proof {
            assert(counts(frequencies@) =~= Map::<T, int>::empty());
        }
        for i in 0..data.len()
            invariant
                symbol_type::<T>(),
                frequencies@.dom().finite(),
                sum(counts(frequencies@)) == i,
                forall|k: T| #[trigger]
                    frequencies@.contains_key(k) <==> occurrences(data@.take(i as int), k) > 0,
                forall|k: T|
                    frequencies@.contains_key(k) ==> #[trigger] frequencies@[k] == occurrences(
                        data@.take(i as int),
                        k,
                    ),
        {
            let value = &data[i];
            let key = value.clone();
            let ghost count: int = if frequencies@.contains_key(key) {
                frequencies@[key] as int
            } else {
                0
            };
            proof {
                assert(cloned(*value, key));
                assert(key == *value);
                lemma_occurrences(data@.take(i as int), key);
                assert(data@.take(i + 1).drop_last() =~= data@.take(i as int));
                let before = counts(frequencies@);
                let after = counts(frequencies@.insert(key, (count + 1) as u64));
                assert(after =~= before.insert(key, count + 1));
                assert(before.dom() =~= frequencies@.dom());
                if frequencies@.contains_key(key) {
                    lemma_sum_update(before, key, count + 1);
                } else {
                    lemma_sum_insert(before, key, count + 1);
                }
                assert forall|k: T|
                    occurrences(data@.take(i + 1), k) == occurrences(data@.take(i as int), k) + (
                    if k == key {
                        1nat
                    } else {
                        0nat
                    }) by {
                    assert(data@.take(i + 1).last() == key);
                }
            }
            *frequencies.entry(key).or_insert(0u64) += 1;
        }
        proof {
            assert(data@.take(data.len() as int) =~= data@);
            assert forall|k: T| #[trigger] frequencies@.contains_key(k) <==> data@.contains(k) by {
                lemma_occurrences(data@, k);
            }
        }
        let ghost mut remaining: Map<T, u64> = frequencies@;
        proof {
            assert(widths(self.intervals@) =~= Map::<T, int>::empty());
        }
        for (unit, count) in it: frequencies.iter()
            invariant
                symbol_type::<T>(),
                it.seq().no_duplicates(),
                forall|j: int|
                    0 <= j < it.seq().len() ==> frequencies@.contains_key(
                        *(#[trigger] it.seq()[j]).0,
                    ) && frequencies@[*it.seq()[j].0] == *it.seq()[j].1,
                forall|k: T|
                    frequencies@.contains_key(k) ==> #[trigger] frequencies@[k] == occurrences(
                        data@,
                        k,
                    ),
                forall|k: T| #[trigger] frequencies@.contains_key(k) <==> data@.contains(k),
                remaining.dom().finite(),
                forall|j: int|
                    0 <= j < it.index() ==> self.intervals@.contains_key(
                        *(#[trigger] it.seq()[j]).0,
                    ),
                forall|j: int|
                    it.index() <= j < it.seq().len() ==> !self.intervals@.contains_key(
                        *(#[trigger] it.seq()[j]).0,
                    ),
                forall|k: T|
                    remaining.contains_key(k) <==> (frequencies@.contains_key(k)
                        && !self.intervals@.contains_key(k)),
                forall|k: T|
                    remaining.contains_key(k) ==> #[trigger] remaining[k] == frequencies@[k],
                forall|k: T| #[trigger]
                    remaining.contains_key(k) ==> exists|j: int|
                        it.index() <= j < it.seq().len() && *(#[trigger] it.seq()[j]).0 == k,
                forall|k: T| #[trigger]
                    self.intervals@.contains_key(k) ==> {
                        &&& frequencies@.contains_key(k)
                        &&& self.intervals@[k].1 == self.intervals@[k].0 + frequencies@[k]
                        &&& self.intervals@[k].1 <= self.cumulative_frequency
                        &&& self.intervals@[k].0 < self.intervals@[k].1
                    },
                forall|a: T, b: T|
                    self.intervals@.contains_key(a) && self.intervals@.contains_key(b) && a != b
                        ==> disjoint_intervals(
                        #[trigger] self.intervals@[a],
                        #[trigger] self.intervals@[b],
                    ),
                sum(widths(self.intervals@)) == self.cumulative_frequency,
                forall|x: int|
                    0 <= x < self.cumulative_frequency ==> #[trigger] holds_point(
                        self.intervals@,
                        x,
                    ),
                self.cumulative_frequency + sum(counts(remaining)) == data.len(),
                self.data == old(self).data,
        {
            let key = unit.clone();
            proof {
                assert(cloned(*unit, key));
                assert(key == *unit);
                let idx = it.index();
                assert(it.seq()[idx] == (unit, count));
                assert(!self.intervals@.contains_key(key));
                assert(remaining.contains_key(key));
                lemma_occurrences(data@, key);
                assert forall|j: int| idx < j < it.seq().len() implies *(#[trigger] it.seq()[
                    j
                ]).0 != key by {
                    if *it.seq()[j].0 == key {
                        assert(*it.seq()[j].1 == *it.seq()[idx].1);
                        assert(it.seq()[j] == it.seq()[idx]);
                    }
                }
                assert(counts(remaining).dom() =~= remaining.dom());
                assert(widths(self.intervals@).dom() =~= self.intervals@.dom());
                lemma_sum_remove(counts(remaining), key);
                assert(counts(remaining).remove(key) =~= counts(remaining.remove(key)));
                lemma_counts_sum_nonnegative(remaining.remove(key));
                lemma_sum_insert(widths(self.intervals@), key, *count as int);
            }
            let low: u64 = self.cumulative_frequency;
            let high: u64 = self.cumulative_frequency + *count;
            let ghost before = self.intervals@;
            proof {
                assert(widths(before.insert(key, (low, high))) =~= widths(before).insert(
                    key,
                    *count as int,
                ));
                remaining = remaining.remove(key);
            }
            self.intervals.insert(key, (low, high));
            self.cumulative_frequency += *count;
            proof {
                let now = self.intervals@;
                let total: int = self.cumulative_frequency as int;
                assert forall|x: int| 0 <= x < total implies #[trigger] holds_point(now, x) by {
                    if x < low {
                        assert(holds_point(before, x));
                        let k = choose|k: T| #[trigger]
                            before.contains_key(k) && before[k].0 <= x < before[k].1;
                        assert(now.contains_key(k) && now[k] == before[k]);
                    } else {
                        assert(now.contains_key(key));
                    }
                }
            }
        }
        proof {
            assert(remaining.dom() =~= Set::<T>::empty());
            assert(counts(remaining) =~= Map::<T, int>::empty());
            assert forall|k: T| self.intervals@.contains_key(k) <==> data@.contains(k) by {
                if data@.contains(k) {
                    assert(frequencies@.contains_key(k));
                    assert(!remaining.contains_key(k));
                }
            }
            assert forall|k: T| data@.contains(k) implies ({
                let iv = #[trigger] self.intervals@[k];
                iv.1 - iv.0 == occurrences(data@, k)
            }) by {
                assert(self.intervals@.contains_key(k));
                assert(frequencies@[k] == occurrences(data@, k));
            }
        }
        self.length = data.len() as u64;
        (&self.intervals, self.cumulative_frequency, self.length)
    }

    fn model(&self) -> (r: (&HashMap<T, (u64, u64)>, u64, u64)) {
        (&self.intervals, self.cumulative_frequency, self.length)
    }
}

} // verus!
