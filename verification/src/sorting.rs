//! Ascending lists without repeats, and how to make one of any list.

use vstd::prelude::*;

verus! {

/// Each element is smaller than every later one: ascending, no repeats.
pub open spec fn strictly_increasing(s: Seq<usize>) -> bool {
    forall|i: int, j: int| 0 <= i < j < s.len() ==> s[i] < s[j]
}

/// `a` and `b` hold the same values, whatever their order and number.
pub open spec fn same_values(a: Seq<usize>, b: Seq<usize>) -> bool {
    forall|x: usize| a.contains(x) <==> b.contains(x)
}

/// A set of values has one ascending list only: two strictly increasing lists
/// that hold the same values are equal.
pub proof fn lemma_strictly_increasing_unique(a: Seq<usize>, b: Seq<usize>)
    requires
        strictly_increasing(a),
        strictly_increasing(b),
        same_values(a, b),
    ensures
        a == b,
    decreases a.len(),
{
    if a.len() == 0 {
        if b.len() > 0 {
            assert(b.contains(b[0]));
            assert(a.contains(b[0]));
        }
        assert(a =~= b);
    } else {
        assert(a.contains(a.last()));
        assert(b.contains(a.last()));
        assert(b.len() > 0);
        assert(b.contains(b.last()));
        assert(a.contains(b.last()));
        let ia = choose|i: int| 0 <= i < a.len() && a[i] == b.last();
        let ib = choose|i: int| 0 <= i < b.len() && b[i] == a.last();
        assert(a.last() == b.last());
        let fa = a.drop_last();
        let fb = b.drop_last();
        assert forall|x: usize| fa.contains(x) <==> fb.contains(x) by {
            if fa.contains(x) {
                let i = choose|i: int| 0 <= i < fa.len() && fa[i] == x;
                assert(a[i] == x);
                assert(b.contains(x));
                let j = choose|j: int| 0 <= j < b.len() && b[j] == x;
                assert(j < b.len() - 1);
                assert(fb[j] == x);
            }
            if fb.contains(x) {
                let i = choose|i: int| 0 <= i < fb.len() && fb[i] == x;
                assert(b[i] == x);
                assert(a.contains(x));
                let j = choose|j: int| 0 <= j < a.len() && a[j] == x;
                assert(j < a.len() - 1);
                assert(fa[j] == x);
            }
        }
        lemma_strictly_increasing_unique(fa, fb);
        assert(a =~= fa.push(a.last()));
        assert(b =~= fb.push(b.last()));
    }
}

/// In a strictly increasing list no value is smaller than its place, so no
/// place is beyond the largest machine word.
pub proof fn lemma_strictly_increasing_bound(s: Seq<usize>, i: int)
    requires
        strictly_increasing(s),
        0 <= i < s.len(),
    ensures
        i <= s[i],
    decreases i,
{
    if i > 0 {
        lemma_strictly_increasing_bound(s, i - 1);
        assert(s[i - 1] < s[i]);
    }
}

/// The values of two ascending lists in one ascending list; a value that both
/// hold comes once.
fn merge_distinct(a: &Vec<usize>, b: &Vec<usize>) -> (out: Vec<usize>)
    requires
        strictly_increasing(a@),
        strictly_increasing(b@),
    ensures
        strictly_increasing(out@),
        forall|x: usize| out@.contains(x) <==> a@.contains(x) || b@.contains(x),
{
    let mut out: Vec<usize> = Vec::new();
    let mut i: usize = 0;
    let mut j: usize = 0;
    while i < a.len() || j < b.len()
        invariant
            i <= a.len(),
            j <= b.len(),
            strictly_increasing(a@),
            strictly_increasing(b@),
            strictly_increasing(out@),
            forall|k: int| 0 <= k < out.len() && i < a.len() ==> out@[k] < a@[i as int],
            forall|k: int| 0 <= k < out.len() && j < b.len() ==> out@[k] < b@[j as int],
            forall|x: usize|
                out@.contains(x) <==> a@.take(i as int).contains(x) || b@.take(j as int).contains(
                    x,
                ),
        decreases a.len() - i + b.len() - j,
    {
        let ghost before = out@;
        let ghost i0 = i;
        let ghost j0 = j;
        let next: usize;
        if j >= b.len() || (i < a.len() && a[i] <= b[j]) {
            next = a[i];
            if j < b.len() && b[j] == next {
                j += 1;
            }
            i += 1;
        } else {
            next = b[j];
            j += 1;
        }
        out.push(next);
        proof {
            assert(out@ == before.push(next));
            assert forall|p: int, q: int| 0 <= p < q < out@.len() implies out@[p] < out@[q] by {
                if q < before.len() {
                    assert(before[p] < before[q]);
                }
            }
            assert forall|x: usize|
                out@.contains(x) <==> a@.take(i as int).contains(x) || b@.take(j as int).contains(
                    x,
                ) by {
                let ta0 = a@.take(i0 as int);
                let tb0 = b@.take(j0 as int);
                let ta = a@.take(i as int);
                let tb = b@.take(j as int);
                if out@.contains(x) {
                    let k = choose|k: int| 0 <= k < out@.len() && out@[k] == x;
                    if k < before.len() {
                        assert(before[k] == x);
                        assert(before.contains(x));
                        if ta0.contains(x) {
                            let m = choose|m: int| 0 <= m < ta0.len() && ta0[m] == x;
                            assert(ta[m] == x);
                        } else {
                            let m = choose|m: int| 0 <= m < tb0.len() && tb0[m] == x;
                            assert(tb[m] == x);
                        }
                    } else {
                        if i > i0 {
                            assert(ta[i0 as int] == x);
                        } else {
                            assert(tb[j0 as int] == x);
                        }
                    }
                }
                if ta.contains(x) {
                    let m = choose|m: int| 0 <= m < ta.len() && ta[m] == x;
                    if m < i0 {
                        assert(ta0[m] == x);
                        assert(before.contains(x));
                        let k = choose|k: int| 0 <= k < before.len() && before[k] == x;
                        assert(out@[k] == x);
                    } else {
                        assert(out@[before.len() as int] == x);
                    }
                }
                if tb.contains(x) {
                    let m = choose|m: int| 0 <= m < tb.len() && tb[m] == x;
                    if m < j0 {
                        assert(tb0[m] == x);
                        assert(before.contains(x));
                        let k = choose|k: int| 0 <= k < before.len() && before[k] == x;
                        assert(out@[k] == x);
                    } else {
                        assert(out@[before.len() as int] == x);
                    }
                }
            }
        }
    }
    proof {
        assert(a@.take(i as int) =~= a@);
        assert(b@.take(j as int) =~= b@);
    }
    out
}

/// The values of `v[lo..hi]` in an ascending list without repeats.
fn sorted_distinct_range(v: &Vec<usize>, lo: usize, hi: usize) -> (out: Vec<usize>)
    requires
        lo <= hi <= v.len(),
    ensures
        strictly_increasing(out@),
        same_values(out@, v@.subrange(lo as int, hi as int)),
    decreases hi - lo,
{
    let ghost part = v@.subrange(lo as int, hi as int);
    if hi - lo == 0 {
        let out: Vec<usize> = Vec::new();
        proof {
            assert forall|x: usize| out@.contains(x) <==> part.contains(x) by {
                if part.contains(x) {
                    let k = choose|k: int| 0 <= k < part.len() && part[k] == x;
                }
                if out@.contains(x) {
                    let k = choose|k: int| 0 <= k < out@.len() && out@[k] == x;
                }
            }
        }
        out
    } else if hi - lo == 1 {
        let mut out: Vec<usize> = Vec::new();
        out.push(v[lo]);
        proof {
            assert forall|x: usize| out@.contains(x) <==> part.contains(x) by {
                if part.contains(x) {
                    let k = choose|k: int| 0 <= k < part.len() && part[k] == x;
                    assert(out@[0] == x);
                }
                if out@.contains(x) {
                    let k = choose|k: int| 0 <= k < out@.len() && out@[k] == x;
                    assert(part[0] == x);
                }
            }
        }
        out
    } else {
        let mid = lo + (hi - lo) / 2;
        let left = sorted_distinct_range(v, lo, mid);
        let right = sorted_distinct_range(v, mid, hi);
        let out = merge_distinct(&left, &right);
        proof {
            let pl = v@.subrange(lo as int, mid as int);
            let pr = v@.subrange(mid as int, hi as int);
            assert forall|x: usize| out@.contains(x) <==> part.contains(x) by {
                if part.contains(x) {
                    let k = choose|k: int| 0 <= k < part.len() && part[k] == x;
                    if k < mid - lo {
                        assert(pl[k] == x);
                        assert(pl.contains(x));
                    } else {
                        assert(pr[k - (mid - lo)] == x);
                        assert(pr.contains(x));
                    }
                }
                if pl.contains(x) {
                    let k = choose|k: int| 0 <= k < pl.len() && pl[k] == x;
                    assert(part[k] == x);
                }
                if pr.contains(x) {
                    let k = choose|k: int| 0 <= k < pr.len() && pr[k] == x;
                    assert(part[k + (mid - lo)] == x);
                }
            }
        }
        out
    }
}

/// The values of `v` in ascending order, each once.
pub fn sorted_distinct(v: &Vec<usize>) -> (out: Vec<usize>)
    ensures
        strictly_increasing(out@),
        same_values(out@, v@),
{
    proof {
        assert(v@.subrange(0, v@.len() as int) =~= v@);
    }
    sorted_distinct_range(v, 0, v.len())
}

} // verus!
