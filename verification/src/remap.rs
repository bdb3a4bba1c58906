//! The renumbering: kept labels get the numbers `0, 1, 2, ...` in ascending
//! order, and records are rewritten with the new numbers.

use crate::counter::Counter;
use crate::decimal::{decimal_digits, push_decimal};
use crate::record::{
    parse_line, parse_record, push_record_text, record_text, ParseError, Record, RecordView,
};
use crate::selection::{kept_list, lemma_kept_list};
use crate::sorting::{lemma_strictly_increasing_bound, strictly_increasing};
use vstd::prelude::*;
use vstd::string::StringExecFns;

verus! {

/// The new number of `label` under the ascending list `kept`: its place in
/// the list, counted from zero; none for a label that is not in the list.
pub open spec fn new_index(kept: Seq<usize>, label: usize) -> Option<usize> {
    if kept.contains(label) {
        Some(kept.index_of(label) as usize)
    } else {
        None
    }
}

/// The labels of a record after renumbering: each kept label gives way to its
/// new number, in the order of the record; the others leave.
pub open spec fn rewritten(kept: Seq<usize>, labels: Seq<usize>) -> Seq<usize> {
    labels.filter_map(|l: usize| new_index(kept, l))
}

/// A record after renumbering: the identifier as it was, the labels
/// rewritten.
pub open spec fn rewritten_record(kept: Seq<usize>, r: RecordView) -> RecordView {
    RecordView { id: r.id, labels: rewritten(kept, r.labels) }
}

/// The mapping from new numbers to old labels, as pairs of a new number and
/// the label it stands for, in ascending order of both.
pub open spec fn mapping_entries(kept: Seq<usize>) -> Seq<(usize, usize)> {
    Seq::new(kept.len(), |i: int| (i as usize, kept[i]))
}

/// One line of the mapping text: the new number, a tab, the old label, a line
/// feed.
pub open spec fn mapping_line(entry: (usize, usize)) -> Seq<char> {
    decimal_digits(entry.0 as nat) + seq!['\t'] + decimal_digits(entry.1 as nat) + seq!['\n']
}

/// The mapping as text: one line for each entry, in order.
pub open spec fn mapping_text(kept: Seq<usize>) -> Seq<char> {
    mapping_entries(kept).map_values(|e: (usize, usize)| mapping_line(e)).flatten()
}

/// In a strictly increasing list each label has one place only, and that
/// place is its new number.
pub proof fn lemma_new_index_at(kept: Seq<usize>, i: int)
    requires
        strictly_increasing(kept),
        0 <= i < kept.len(),
    ensures
        new_index(kept, kept[i]) == Some(i as usize),
{
    assert(kept.contains(kept[i]));
    lemma_strictly_increasing_bound(kept, i);
    let j = kept.index_of(kept[i]);
    if j < i {
        assert(kept[j] < kept[i]);
    } else if i < j {
        assert(kept[i] < kept[j]);
    }
}

/// A renumbering: the kept labels in ascending order. Its view is that list;
/// the new number of a kept label is its place in it.
pub struct Remap {
    kept: Vec<usize>,
}

impl View for Remap {
    type V = Seq<usize>;

    closed spec fn view(&self) -> Seq<usize> {
        self.kept@
    }
}

impl Remap {
    #[verifier::type_invariant]
    closed spec fn ascending(self) -> bool {
        strictly_increasing(self.kept@)
    }

    /// The renumbering for what `counter` has seen: the labels seen at least
    /// `min_hits` times are kept, and numbered in ascending order.
    pub fn build(counter: &Counter, min_hits: usize) -> (remap: Remap)
        ensures
            remap@ == kept_list(counter@, min_hits),
    {
        let kept = counter.kept_labels(min_hits);
        proof {
            lemma_kept_list(counter@, min_hits);
        }
        Remap { kept }
    }

    /// The kept labels in ascending order: the old label of the new number
    /// `i` stands at place `i`.
    pub fn kept_labels(&self) -> (kept: &Vec<usize>)
        ensures
            kept@ == self@,
            strictly_increasing(self@),
    {
        proof {
            use_type_invariant(self);
        }
        &self.kept
    }

    /// How many labels are kept. The new numbers are those below it.
    pub fn len(&self) -> (n: usize)
        ensures
            n == self@.len(),
    {
        self.kept.len()
    }

    /// The new number of `label`, or `None` where the label is not kept.
    pub fn lookup(&self, label: usize) -> (r: Option<usize>)
        ensures
            strictly_increasing(self@),
            r == new_index(self@, label),
    {
        proof {
            use_type_invariant(self);
        }
        let mut lo: usize = 0;
        let mut hi: usize = self.kept.len();
        while lo < hi
            invariant
                lo <= hi <= self.kept.len(),
                strictly_increasing(self.kept@),
                forall|i: int| 0 <= i < lo ==> self.kept@[i] < label,
                forall|i: int| hi <= i < self.kept.len() ==> self.kept@[i] > label,
            decreases hi - lo,
        {
            let mid = lo + (hi - lo) / 2;
            let at = self.kept[mid];
            if at == label {
                proof {
                    lemma_new_index_at(self.kept@, mid as int);
                }
                return Some(mid);
            } else if at < label {
                lo = mid + 1;
            } else {
                hi = mid;
            }
        }
        proof {
            if self.kept@.contains(label) {
                let i = choose|i: int| 0 <= i < self.kept@.len() && self.kept@[i] == label;
                assert(false);
            }
        }
        None
    }

    /// The old label that the new number `index` stands for, or `None` where
    /// no label has that number.
    pub fn old_label(&self, index: usize) -> (r: Option<usize>)
        ensures
            r == (if index < self@.len() {
                Some(self@[index as int])
            } else {
                None
            }),
    {
        if index < self.kept.len() {
            Some(self.kept[index])
        } else {
            None
        }
    }

    /// The mapping entries: for each kept label the pair of its new number
    /// and the label, in ascending order.
    pub fn entries(&self) -> (entries: Vec<(usize, usize)>)
        ensures
            strictly_increasing(self@),
            entries@ == mapping_entries(self@),
    {
        proof {
            use_type_invariant(self);
        }
        let mut entries: Vec<(usize, usize)> = Vec::new();
        let mut i: usize = 0;
        while i < self.kept.len()
            invariant
                i <= self.kept.len(),
                entries@ == mapping_entries(self.kept@.take(i as int)),
            decreases self.kept.len() - i,
        {
            proof {
                assert(mapping_entries(self.kept@.take(i + 1)) =~= mapping_entries(
                    self.kept@.take(i as int),
                ).push((i, self.kept@[i as int])));
            }
            entries.push((i, self.kept[i]));
            i += 1;
        }
        proof {
            assert(self.kept@.take(i as int) =~= self.kept@);
        }
        entries
    }

    /// The mapping as text: for each kept label a line with its new number, a
    /// tab and the label, in ascending order.
    pub fn mapping_text(&self) -> (text: String)
        ensures
            text@ == mapping_text(self@),
    {
        let ghost line = |e: (usize, usize)| mapping_line(e);
        let mut text = String::new();
        let mut i: usize = 0;
        proof {
            assert(mapping_entries(self.kept@.take(0)).map_values(line) =~= Seq::<
                Seq<char>,
            >::empty());
        }
        while i < self.kept.len()
            invariant
                i <= self.kept.len(),
                line == |e: (usize, usize)| mapping_line(e),
                text@ == mapping_text(self.kept@.take(i as int)),
            decreases self.kept.len() - i,
        {
            let ghost before = text@;
            let ghost so_far = mapping_entries(self.kept@.take(i as int)).map_values(line);
            let ghost entry = (i, self.kept@[i as int]);
            proof {
                reveal_strlit("\t");
                reveal_strlit("\n");
                assert(mapping_entries(self.kept@.take(i + 1)).map_values(line) =~= so_far.push(
                    mapping_line(entry),
                ));
                so_far.lemma_flatten_push(mapping_line(entry));
            }
            push_decimal(&mut text, i);
            text.append("\t");
            push_decimal(&mut text, self.kept[i]);
            text.append("\n");
            proof {
                assert(text@ =~= before + mapping_line(entry));
            }
            i += 1;
        }
        proof {
            assert(self.kept@.take(i as int) =~= self.kept@);
        }
        text
    }

    /// The labels of a record after renumbering: the new number of each kept
    /// label, in the order of `labels`; labels that are not kept are left out.
    pub fn rewrite_labels(&self, labels: &Vec<usize>) -> (out: Vec<usize>)
        ensures
            out@ == rewritten(self@, labels@),
    {
        let ghost f = |l: usize| new_index(self@, l);
        let mut out: Vec<usize> = Vec::new();
        let mut i: usize = 0;
        proof {
            assert(labels@.take(0) =~= Seq::<usize>::empty());
        }
        while i < labels.len()
            invariant
                i <= labels.len(),
                f == |l: usize| new_index(self@, l),
                out@ == labels@.take(i as int).filter_map(f),
            decreases labels.len() - i,
        {
            proof {
                labels@.lemma_filter_map_take_succ(f, i as int);
            }
            match self.lookup(labels[i]) {
                Some(n) => {
                    proof {
                        assert(out@.push(n) =~= out@ + seq![n]);
                    }
                    out.push(n);
                },
                None => {
                    proof {
                        assert(out@ =~= out@ + Seq::<usize>::empty());
                    }
                },
            }
            i += 1;
        }
        proof {
            assert(labels@.take(i as int) =~= labels@);
        }
        out
    }

    /// A record after renumbering: the same identifier, the labels rewritten.
    /// A record of which no label is kept stays, without labels.
    pub fn rewrite_record(&self, record: &Record) -> (out: Record)
        ensures
            out@ == rewritten_record(self@, record@),
    {
        Record { id: record.id.clone(), labels: self.rewrite_labels(&record.labels) }
    }

    /// Reads `line` as a record and writes it down again after renumbering,
    /// line feed included. A line that is no record gives the reason.
    pub fn rewrite_line(&self, line: &str) -> (r: Result<String, ParseError>)
        ensures
            match r {
                Ok(text) => parse_line(line@) is Ok && text@ == record_text(
                    rewritten_record(self@, parse_line(line@)->Ok_0),
                ),
                Err(e) => parse_line(line@) == Err::<RecordView, ParseError>(e),
            },
    {
        match parse_record(line) {
            Ok(record) => {
                let labels = self.rewrite_labels(&record.labels);
                let mut text = String::new();
                push_record_text(&mut text, record.id.as_str(), &labels);
                proof {
                    let out = rewritten_record(self@, record@);
                    assert(Seq::<char>::empty() + record_text(out) =~= record_text(out));
                }
                Ok(text)
            },
            Err(e) => Err(e),
        }
    }
}

} // verus!
