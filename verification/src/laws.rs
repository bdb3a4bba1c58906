//! What holds of every renumbering, stated over the definitions that the
//! contracts of this library use.

use crate::record::{
    is_identifier, lemma_parse_record_text, parse_line, record_text, record_tokens, ParseError,
    RecordView,
};
use crate::pipeline::tally_of;
use crate::remap::{lemma_new_index_at, mapping_entries, new_index, rewritten, rewritten_record};
use crate::selection::{kept_below, kept_list, keeps, lemma_kept_below, lemma_kept_list};
use crate::sorting::{
    lemma_strictly_increasing_bound, lemma_strictly_increasing_unique, same_values,
    strictly_increasing,
};
use vstd::multiset::Multiset;
use vstd::prelude::*;
use vstd::seq_lib::to_multiset_build;

verus! {

/// The labels of a record that are kept, in the order of the record.
pub open spec fn survivors(kept: Seq<usize>, labels: Seq<usize>) -> Seq<usize> {
    labels.filter(|l: usize| kept.contains(l))
}

/// New numbers turned back into old labels: each number gives way to the
/// label at its place in the mapping.
pub open spec fn translated_back(kept: Seq<usize>, numbers: Seq<usize>) -> Seq<usize> {
    numbers.map_values(|n: usize| mapping_entries(kept)[n as int].1)
}

/// The new numbers that are given to some label.
pub open spec fn assigned_numbers(kept: Seq<usize>) -> Set<usize> {
    Set::new(|n: usize| exists|l: usize| new_index(kept, l) == Some(n))
}

/// How often `label` occurs among `labels`.
pub open spec fn occurrences(labels: Seq<usize>, label: usize) -> nat
    decreases labels.len(),
{
    if labels.len() == 0 {
        0
    } else {
        occurrences(labels.drop_last(), label) + if labels.last() == label {
            1nat
        } else {
            0nat
        }
    }
}

/// How often `label` occurs in all records together.
pub open spec fn total_occurrences(records: Seq<RecordView>, label: usize) -> nat
    decreases records.len(),
{
    if records.len() == 0 {
        0
    } else {
        total_occurrences(records.drop_last(), label) + occurrences(records.last().labels, label)
    }
}

/// The threshold decides: a label that occurs in the tally is kept if and
/// only if it occurs at least `min_hits` times. With a threshold of one or
/// more this holds of every label; with a threshold of zero a label that
/// never occurs is still not kept.
pub proof fn lemma_kept_iff_threshold(tally: Multiset<usize>, min_hits: usize, label: usize)
    requires
        min_hits >= 1 || tally.count(label) >= 1,
    ensures
        kept_list(tally, min_hits).contains(label) <==> tally.count(label) >= min_hits,
{
    lemma_kept_list(tally, min_hits);
}

/// The multiset of a list of labels counts occurrences.
pub proof fn lemma_multiset_counts_occurrences(labels: Seq<usize>, label: usize)
    ensures
        labels.to_multiset().count(label) == occurrences(labels, label),
    decreases labels.len(),
{
    if labels.len() == 0 {
        labels.to_multiset_ensures();
    } else {
        let front = labels.drop_last();
        lemma_multiset_counts_occurrences(front, label);
        to_multiset_build(front, labels.last());
        assert(labels =~= front.push(labels.last()));
    }
}

/// The tally of records counts, for each label, its occurrences in all
/// records together.
pub proof fn lemma_tally_counts_occurrences(records: Seq<RecordView>, label: usize)
    ensures
        tally_of(records).count(label) == total_occurrences(records, label),
    decreases records.len(),
{
    if records.len() > 0 {
        lemma_tally_counts_occurrences(records.drop_last(), label);
        lemma_multiset_counts_occurrences(records.last().labels, label);
    }
}

/// Over records: a label that occurs in them is kept if and only if it occurs
/// at least `min_hits` times in all of them together; with a threshold of one
/// or more this holds of every label.
pub proof fn lemma_kept_iff_occurs_often(
    records: Seq<RecordView>,
    min_hits: usize,
    label: usize,
)
    requires
        min_hits >= 1 || total_occurrences(records, label) >= 1,
    ensures
        kept_list(tally_of(records), min_hits).contains(label) <==> total_occurrences(
            records,
            label,
        ) >= min_hits,
{
    lemma_tally_counts_occurrences(records, label);
    lemma_kept_iff_threshold(tally_of(records), min_hits, label);
}

/// The new numbers are dense: with `k` labels kept, the numbers given are
/// exactly those below `k`, and no two labels get the same number.
pub proof fn lemma_dense_renumbering(kept: Seq<usize>)
    requires
        strictly_increasing(kept),
    ensures
        assigned_numbers(kept) =~= Set::new(|n: usize| n < kept.len()),
        forall|a: usize, b: usize|
            new_index(kept, a) is Some && new_index(kept, a) == new_index(kept, b) ==> a == b,
{
    assert forall|n: usize| assigned_numbers(kept).contains(n) <==> n < kept.len() by {
        if n < kept.len() {
            lemma_new_index_at(kept, n as int);
        }
    }
    assert forall|a: usize, b: usize|
        new_index(kept, a) is Some && new_index(kept, a) == new_index(kept, b) implies a == b by {
        assert(kept[kept.index_of(a)] == a);
        assert(kept[kept.index_of(b)] == b);
        lemma_strictly_increasing_bound(kept, kept.index_of(a));
        lemma_strictly_increasing_bound(kept, kept.index_of(b));
    }
}

/// Renumbering keeps the order: the rewritten labels of a record are the new
/// numbers of its kept labels, one for one and in the same order.
pub proof fn lemma_order_preserved(kept: Seq<usize>, labels: Seq<usize>)
    ensures
        rewritten(kept, labels) == survivors(kept, labels).map_values(
            |l: usize| kept.index_of(l) as usize,
        ),
    decreases labels.len(),
{
    reveal(Seq::filter);
    let number = |l: usize| kept.index_of(l) as usize;
    let is_kept = |l: usize| kept.contains(l);
    let look = |l: usize| new_index(kept, l);
    if labels.len() == 0 {
        assert(labels.filter_map(look) =~= labels.filter(is_kept).map_values(number));
    } else {
        let front = labels.drop_last();
        lemma_order_preserved(kept, front);
        if kept.contains(labels.last()) {
            assert(front.filter(is_kept).push(labels.last()).map_values(number)
                =~= front.filter(is_kept).map_values(number).push(number(labels.last())));
            assert(front.filter_map(look) + seq![number(labels.last())] =~= front.filter_map(
                look,
            ).push(number(labels.last())));
        }
    }
}

/// Turning the rewritten labels of a record back through the mapping gives
/// the kept labels of the record, in their order.
pub proof fn lemma_round_trip(kept: Seq<usize>, labels: Seq<usize>)
    requires
        strictly_increasing(kept),
    ensures
        translated_back(kept, rewritten(kept, labels)) == survivors(kept, labels),
    decreases labels.len(),
{
    reveal(Seq::filter);
    let back = |n: usize| mapping_entries(kept)[n as int].1;
    let is_kept = |l: usize| kept.contains(l);
    let look = |l: usize| new_index(kept, l);
    if labels.len() == 0 {
        assert(labels.filter_map(look).map_values(back) =~= labels.filter(is_kept));
    } else {
        let front = labels.drop_last();
        let last = labels.last();
        lemma_round_trip(kept, front);
        if kept.contains(last) {
            lemma_strictly_increasing_bound(kept, kept.index_of(last));
            let n = kept.index_of(last) as usize;
            assert(kept[n as int] == last);
            assert(back(n) == last);
            assert((front.filter_map(look) + seq![n]).map_values(back) =~= front.filter_map(
                look,
            ).map_values(back).push(last));
        }
    }
}

/// The same through the text: the line that goes out for a record, read
/// again, holds the rewritten record, and its labels turned back through the
/// mapping are the kept labels of the record that came in. This asks that the
/// identifier can stand alone in a line.
pub proof fn lemma_round_trip_through_text(kept: Seq<usize>, r: RecordView)
    requires
        strictly_increasing(kept),
        is_identifier(r.id),
    ensures
        parse_line(record_text(rewritten_record(kept, r))) == Ok::<RecordView, ParseError>(
            rewritten_record(kept, r),
        ),
        translated_back(kept, parse_line(record_text(rewritten_record(kept, r)))->Ok_0.labels)
            == survivors(kept, r.labels),
{
    lemma_parse_record_text(rewritten_record(kept, r));
    lemma_round_trip(kept, r.labels);
}

/// A record of which no label is kept goes out as its identifier and a line
/// feed.
pub proof fn lemma_no_survivors(kept: Seq<usize>, r: RecordView)
    requires
        forall|i: int| 0 <= i < r.labels.len() ==> !kept.contains(r.labels[i]),
    ensures
        rewritten(kept, r.labels) == Seq::<usize>::empty(),
        record_text(rewritten_record(kept, r)) == r.id.push('\n'),
{
    lemma_nothing_rewritten(kept, r.labels);
    let out = rewritten_record(kept, r);
    assert(record_tokens(out) =~= seq![r.id]);
}

proof fn lemma_nothing_rewritten(kept: Seq<usize>, labels: Seq<usize>)
    requires
        forall|i: int| 0 <= i < labels.len() ==> !kept.contains(labels[i]),
    ensures
        rewritten(kept, labels) == Seq::<usize>::empty(),
    decreases labels.len(),
{
    if labels.len() > 0 {
        let front = labels.drop_last();
        assert forall|i: int| 0 <= i < front.len() implies !kept.contains(front[i]) by {
            assert(front[i] == labels[i]);
        }
        lemma_nothing_rewritten(kept, front);
    }
}

/// The mapping is right: the label of each entry occurs at least `min_hits`
/// times, and the new number of the entry is the rank of the label among the
/// kept labels in ascending order, which is the number of kept labels below
/// it.
pub proof fn lemma_mapping_entries(tally: Multiset<usize>, min_hits: usize, i: int)
    requires
        0 <= i < mapping_entries(kept_list(tally, min_hits)).len(),
    ensures
        ({
            let entry = mapping_entries(kept_list(tally, min_hits))[i];
            &&& entry.0 == i
            &&& tally.count(entry.1) >= min_hits
            &&& tally.count(entry.1) >= 1
            &&& kept_below(tally, min_hits, entry.1 as nat).len() == entry.0
            &&& new_index(kept_list(tally, min_hits), entry.1) == Some(entry.0)
        }),
{
    let kept = kept_list(tally, min_hits);
    let label = kept[i];
    lemma_kept_list(tally, min_hits);
    lemma_strictly_increasing_bound(kept, i);
    assert(kept.contains(label));
    lemma_new_index_at(kept, i);
    let below = kept_below(tally, min_hits, label as nat);
    let front = kept.take(i);
    lemma_kept_below(tally, min_hits, label as nat);
    assert forall|x: usize| below.contains(x) <==> front.contains(x) by {
        if below.contains(x) {
            assert(kept.contains(x));
            let j = kept.index_of(x);
            if j >= i {
                if j > i {
                    assert(kept[i] < kept[j]);
                }
            }
            assert(front[j] == x);
        }
        if front.contains(x) {
            let j = choose|j: int| 0 <= j < front.len() && front[j] == x;
            assert(kept[j] == x);
            assert(kept[j] < kept[i]);
            assert(kept.contains(x));
        }
    }
    assert(same_values(below, front));
    lemma_strictly_increasing_unique(below, front);
}

} // verus!
