//! The label frequency table: how often each label has been seen.

use crate::record::{parse_line, parse_record, ParseError, Record, RecordView};
use crate::selection::{keeps, kept_list, lemma_kept_list_unique};
use crate::sorting::sorted_distinct;
use std::collections::HashMap;
use vstd::multiset::Multiset;
use vstd::prelude::*;
use vstd::seq_lib::to_multiset_build;
use vstd::std_specs::hash::{axiom_spec_hash_map_iter, group_hash_axioms, spec_hash_map_iter};
use vstd::std_specs::iter::IteratorSpec;

verus! {

/// `n`, or the largest machine word where `n` is larger still.
pub open spec fn saturated(n: nat) -> usize {
    if n <= usize::MAX {
        n as usize
    } else {
        usize::MAX
    }
}

/// Whether `m` is the largest label in the tally; for an empty tally, whether
/// `m` is zero.
pub open spec fn is_max_label(tally: Multiset<usize>, m: usize) -> bool {
    &&& forall|l: usize| tally.count(l) > 0 ==> l <= m
    &&& tally.count(m) > 0 || m == 0
}

/// Counts the labels it is given. Its view is the multiset of all of them: the
/// number of times a label is in it is the number of times the label was seen.
pub struct Counter {
    counts: HashMap<usize, usize>,
    max_label: usize,
    seen: Ghost<Multiset<usize>>,
}

impl View for Counter {
    type V = Multiset<usize>;

    closed spec fn view(&self) -> Multiset<usize> {
        self.seen@
    }
}

impl Counter {
    /// The table holds the labels that were seen, each with its number of
    /// occurrences as far as a machine word can count.
    #[verifier::type_invariant]
    closed spec fn table_matches_seen(self) -> bool {
        &&& forall|l: usize| #[trigger] self.counts@.contains_key(l) <==> self.seen@.count(l) > 0
        &&& forall|l: usize| #[trigger]
            self.counts@.contains_key(l) ==> self.counts@[l] == saturated(self.seen@.count(l))
        &&& is_max_label(self.seen@, self.max_label)
    }

    /// A counter that has seen nothing.
    pub fn new() -> (c: Counter)
        ensures
            c@ == Multiset::<usize>::empty(),
    {
        Counter { counts: HashMap::new(), max_label: 0, seen: Ghost(Multiset::empty()) }
    }

    /// Counts one occurrence of `label`.
    pub fn add_label(&mut self, label: usize)
        ensures
            final(self)@ == old(self)@.insert(label),
    {
        broadcast use group_hash_axioms;

        // The counter is taken out whole, changed and put back whole, so that
        // the invariant of the type holds of every value in between.
        let mut taken = Counter::new();
        std::mem::swap(self, &mut taken);
        proof {
            use_type_invariant(&taken);
        }
        let Counter { counts, max_label, seen } = taken;
        let mut counts = counts;
        let hits: usize = match counts.get(&label) {
            Some(n) => if *n < usize::MAX {
                *n + 1
            } else {
                *n
            },
            None => 1,
        };
        counts.insert(label, hits);
        let max_label = if label > max_label {
            label
        } else {
            max_label
        };
        *self = Counter { counts, max_label, seen: Ghost(seen@.insert(label)) };
    }

    /// Counts every label of `labels`, each as often as it occurs there.
    pub fn add_labels(&mut self, labels: &Vec<usize>)
        ensures
            final(self)@ == old(self)@.add(labels@.to_multiset()),
    {
        let mut i: usize = 0;
        proof {
            assert(labels@.take(0) =~= Seq::<usize>::empty());
            Seq::<usize>::empty().to_multiset_ensures();
            assert(old(self)@.add(Seq::<usize>::empty().to_multiset()) =~= old(self)@);
        }
        while i < labels.len()
            invariant
                i <= labels.len(),
                self@ == old(self)@.add(labels@.take(i as int).to_multiset()),
            decreases labels.len() - i,
        {
            proof {
                let seen = labels@.take(i as int);
                to_multiset_build(seen, labels@[i as int]);
                assert(labels@.take(i + 1) =~= seen.push(labels@[i as int]));
                assert(old(self)@.add(seen.to_multiset()).insert(labels@[i as int]) =~= old(
                    self,
                )@.add(seen.to_multiset().insert(labels@[i as int])));
            }
            self.add_label(labels[i]);
            i += 1;
        }
        proof {
            assert(labels@.take(i as int) =~= labels@);
        }
    }

    /// Counts the labels of a record.
    pub fn add_record(&mut self, record: &Record)
        ensures
            final(self)@ == old(self)@.add(record@.labels.to_multiset()),
    {
        self.add_labels(&record.labels);
    }

    /// Reads `line` as a record and counts its labels. A line that is no
    /// record changes nothing and gives the reason.
    pub fn count_line(&mut self, line: &str) -> (r: Result<(), ParseError>)
        ensures
            match r {
                Ok(_) => parse_line(line@) is Ok && final(self)@ == old(self)@.add(
                    parse_line(line@)->Ok_0.labels.to_multiset(),
                ),
                Err(e) => parse_line(line@) == Err::<RecordView, ParseError>(e) && final(self)@
                    == old(self)@,
            },
    {
        match parse_record(line) {
            Ok(record) => {
                self.add_record(&record);
                Ok(())
            },
            Err(e) => Err(e),
        }
    }

    /// How often `label` has been seen, as far as a machine word can count.
    pub fn count(&self, label: usize) -> (n: usize)
        ensures
            n == saturated(self@.count(label)),
    {
        broadcast use group_hash_axioms;

        proof {
            use_type_invariant(self);
        }
        match self.counts.get(&label) {
            Some(n) => *n,
            None => 0,
        }
    }

    /// The largest label seen; zero where none has been seen.
    pub fn max_label(&self) -> (m: usize)
        ensures
            is_max_label(self@, m),
    {
        proof {
            use_type_invariant(self);
        }
        self.max_label
    }

    /// The labels seen at least `min_hits` times, in ascending order.
    pub fn kept_labels(&self, min_hits: usize) -> (kept: Vec<usize>)
        ensures
            kept@ == kept_list(self@, min_hits),
    {
        broadcast use {group_hash_axioms, axiom_spec_hash_map_iter};

        proof {
            use_type_invariant(self);
        }
        let ghost entries = spec_hash_map_iter(&self.counts).remaining();
        let mut chosen: Vec<usize> = Vec::new();
        for entry in it: self.counts.iter()
            invariant
                it.seq() == entries,
                forall|x: usize|
                    chosen@.contains(x) <==> exists|i: int|
                        0 <= i < it.index() && *(#[trigger] entries[i]).0 == x && *entries[i].1
                            >= min_hits,
        {
            let ghost before = chosen@;
            let ghost at = it.index();
            let (label, hits) = entry;
            if *hits >= min_hits {
                chosen.push(*label);
            }
            proof {
                assert forall|x: usize|
                    chosen@.contains(x) <==> exists|i: int|
                        0 <= i < at + 1 && *(#[trigger] entries[i]).0 == x && *entries[i].1
                            >= min_hits by {
                    if chosen@.contains(x) {
                        let k = choose|k: int| 0 <= k < chosen@.len() && chosen@[k] == x;
                        if k < before.len() {
                            assert(before[k] == x);
                            assert(before.contains(x));
                        } else {
                            assert(*entries[at].0 == x);
                        }
                    }
                    if exists|i: int|
                        0 <= i < at + 1 && *(#[trigger] entries[i]).0 == x && *entries[i].1
                            >= min_hits {
                        let i = choose|i: int|
                            0 <= i < at + 1 && *(#[trigger] entries[i]).0 == x && *entries[i].1
                                >= min_hits;
                        if i < at {
                            assert(before.contains(x));
                            let k = choose|k: int| 0 <= k < before.len() && before[k] == x;
                            assert(chosen@[k] == x);
                        } else {
                            assert(chosen@[before.len() as int] == x);
                        }
                    }
                }
            }
        }
        let kept = sorted_distinct(&chosen);
        proof {
            assert forall|l: usize| kept@.contains(l) <==> keeps(self@, min_hits, l) by {
                if kept@.contains(l) {
                    assert(chosen@.contains(l));
                    let i = choose|i: int|
                        0 <= i < entries.len() && *(#[trigger] entries[i]).0 == l && *entries[i].1
                            >= min_hits;
                    assert(self.counts@.contains_key(*entries[i].0));
                }
                if keeps(self@, min_hits, l) {
                    assert(self.counts@.contains_key(l));
                    assert(entries.contains((&l, &self.counts@[l])));
                    let i = choose|i: int|
                        0 <= i < entries.len() && entries[i] == (&l, &self.counts@[l]);
                    assert(*entries[i].0 == l);
                    assert(chosen@.contains(l));
                }
            }
            lemma_kept_list_unique(self@, min_hits, kept@);
        }
        kept
    }
}

} // verus!
