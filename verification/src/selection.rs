//! Which labels a threshold keeps, and in what order they are numbered.

use crate::sorting::{lemma_strictly_increasing_unique, same_values, strictly_increasing};
use vstd::multiset::Multiset;
use vstd::prelude::*;

verus! {

/// Whether `label` is kept: it occurs in the tally, and at least `min_hits`
/// times. A label that never occurs is not kept, whatever the threshold.
pub open spec fn keeps(tally: Multiset<usize>, min_hits: usize, label: usize) -> bool {
    tally.count(label) >= 1 && tally.count(label) >= min_hits
}

/// The kept labels below `bound`, in ascending order.
pub open spec fn kept_below(tally: Multiset<usize>, min_hits: usize, bound: nat) -> Seq<usize>
    decreases bound,
{
    if bound == 0 {
        Seq::empty()
    } else {
        let label = (bound - 1) as nat;
        let smaller = kept_below(tally, min_hits, label);
        if label <= usize::MAX && keeps(tally, min_hits, label as usize) {
            smaller.push(label as usize)
        } else {
            smaller
        }
    }
}

/// All kept labels in ascending order. The place of a label in this list is
/// its new number.
pub open spec fn kept_list(tally: Multiset<usize>, min_hits: usize) -> Seq<usize> {
    kept_below(tally, min_hits, usize::MAX as nat + 1)
}

/// `kept_below` lists, in strictly increasing order, exactly the kept labels
/// below the bound.
pub proof fn lemma_kept_below(tally: Multiset<usize>, min_hits: usize, bound: nat)
    ensures
        strictly_increasing(kept_below(tally, min_hits, bound)),
        forall|l: usize|
            #[trigger] kept_below(tally, min_hits, bound).contains(l) <==> l < bound && keeps(
                tally,
                min_hits,
                l,
            ),
    decreases bound,
{
    let list = kept_below(tally, min_hits, bound);
    if bound == 0 {
        assert forall|l: usize| !(#[trigger] list.contains(l)) by {
            if list.contains(l) {
                let i = choose|i: int| 0 <= i < list.len() && list[i] == l;
            }
        }
    } else {
        let label = (bound - 1) as nat;
        let smaller = kept_below(tally, min_hits, label);
        let grows = label <= usize::MAX && keeps(tally, min_hits, label as usize);
        lemma_kept_below(tally, min_hits, label);
        assert(list == if grows {
            smaller.push(label as usize)
        } else {
            smaller
        });
        assert forall|i: int, j: int| 0 <= i < j < list.len() implies list[i] < list[j] by {
            if j < smaller.len() {
                assert(smaller[i] < smaller[j]);
            } else {
                assert(smaller.contains(smaller[i]));
                assert(list[i] == smaller[i]);
                assert(list[j] == label);
            }
        }
        assert forall|l: usize| #[trigger]
            list.contains(l) <==> l < bound && keeps(tally, min_hits, l) by {
            if list.contains(l) {
                let i = choose|i: int| 0 <= i < list.len() && list[i] == l;
                if i < smaller.len() {
                    assert(smaller[i] == l);
                    assert(smaller.contains(l));
                }
            }
            if l < bound && keeps(tally, min_hits, l) {
                if l < label {
                    assert(smaller.contains(l));
                    let i = choose|i: int| 0 <= i < smaller.len() && smaller[i] == l;
                    assert(list[i] == l);
                } else {
                    assert(l == label);
                    assert(grows);
                    assert(list[list.len() - 1] == l);
                }
            }
        }
    }
}

/// The list of kept labels is strictly increasing, and a label is in it if
/// and only if it is kept.
pub proof fn lemma_kept_list(tally: Multiset<usize>, min_hits: usize)
    ensures
        strictly_increasing(kept_list(tally, min_hits)),
        forall|l: usize| #[trigger]
            kept_list(tally, min_hits).contains(l) <==> keeps(tally, min_hits, l),
{
    lemma_kept_below(tally, min_hits, usize::MAX as nat + 1);
}

/// Any strictly increasing list that holds exactly the kept labels is the
/// list of kept labels.
pub proof fn lemma_kept_list_unique(tally: Multiset<usize>, min_hits: usize, list: Seq<usize>)
    requires
        strictly_increasing(list),
        forall|l: usize| list.contains(l) <==> keeps(tally, min_hits, l),
    ensures
        list == kept_list(tally, min_hits),
{
    lemma_kept_list(tally, min_hits);
    assert(same_values(list, kept_list(tally, min_hits)));
    lemma_strictly_increasing_unique(list, kept_list(tally, min_hits));
}

} // verus!
