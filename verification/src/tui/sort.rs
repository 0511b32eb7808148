//! A stable merge sort of indices.

use vstd::prelude::*;

verus! {

/// Things that are known by an index below `count` and come in some order.
pub trait Ranked {
    /// How many there are.
    spec fn count(&self) -> nat;

    /// Whether the one at `a` must come before the one at `b`.
    spec fn ranks_before(&self, a: int, b: int) -> bool;

    proof fn lemma_asymmetric(&self, a: int, b: int)
        ensures
            !(self.ranks_before(a, b) && self.ranks_before(b, a)),
    ;

    proof fn lemma_not_before(&self, a: int, b: int, c: int)
        requires
            !self.ranks_before(a, b),
            !self.ranks_before(b, c),
        ensures
            !self.ranks_before(a, c),
    ;

    fn is_before(&self, a: usize, b: usize) -> (before: bool)
        requires
            a < self.count(),
            b < self.count(),
        ensures
            before == self.ranks_before(a as int, b as int),
    ;
}

/// The order of a stable sort: by rank, and by index where the ranks agree.
pub open spec fn comes_before<R: Ranked>(r: &R, a: int, b: int) -> bool {
    r.ranks_before(a, b) || (!r.ranks_before(b, a) && a < b)
}

/// Whether `s` is in the order of a stable sort, without repetition.
pub open spec fn in_order<R: Ranked>(r: &R, s: Seq<usize>) -> bool {
    forall|i: int, j: int|
        0 <= i < j < s.len() ==> comes_before(r, #[trigger] s[i] as int, #[trigger] s[j] as int)
}

proof fn lemma_comes_before_transitive<R: Ranked>(r: &R, a: int, b: int, c: int)
    requires
        comes_before(r, a, b),
        comes_before(r, b, c),
    ensures
        comes_before(r, a, c),
{
    r.lemma_asymmetric(a, b);
    r.lemma_asymmetric(b, c);
    r.lemma_not_before(c, b, a);
    if !r.ranks_before(a, c) {
        if r.ranks_before(a, b) {
            r.lemma_not_before(a, c, b);
        } else if r.ranks_before(b, c) {
            r.lemma_not_before(b, a, c);
        }
    }
}

proof fn lemma_comes_before_total<R: Ranked>(r: &R, a: int, b: int)
    requires
        a != b,
    ensures
        comes_before(r, a, b) != comes_before(r, b, a),
{
    r.lemma_asymmetric(a, b);
}

/// Merge two runs.
fn merge<R: Ranked>(r: &R, left: &Vec<usize>, right: &Vec<usize>) -> (out: Vec<usize>)
    requires
        in_order(r, left@),
        in_order(r, right@),
        forall|i: int| 0 <= i < left@.len() ==> #[trigger] left@[i] < r.count(),
        forall|i: int| 0 <= i < right@.len() ==> #[trigger] right@[i] < r.count(),
        forall|i: int, j: int|
            0 <= i < left@.len() && 0 <= j < right@.len() ==> #[trigger] left@[i]
                != #[trigger] right@[j],
        left@.len() + right@.len() <= usize::MAX,
    ensures
        in_order(r, out@),
        out@.len() == left@.len() + right@.len(),
        forall|x: usize| #[trigger]
            out@.contains(x) <==> left@.contains(x) || right@.contains(x),
{
    let mut out: Vec<usize> = Vec::new();
    let mut i: usize = 0;
    let mut j: usize = 0;
    while i < left.len() || j < right.len()
        invariant
            i <= left@.len(),
            j <= right@.len(),
            left@.len() + right@.len() <= usize::MAX,
            out@.len() == i + j,
            in_order(r, left@),
            in_order(r, right@),
            in_order(r, out@),
            forall|k: int| 0 <= k < left@.len() ==> #[trigger] left@[k] < r.count(),
            forall|k: int| 0 <= k < right@.len() ==> #[trigger] right@[k] < r.count(),
            forall|k: int, l: int|
                0 <= k < left@.len() && 0 <= l < right@.len() ==> #[trigger] left@[k]
                    != #[trigger] right@[l],
            forall|k: int, l: int|
                0 <= k < out@.len() && i <= l < left@.len() ==> comes_before(
                    r,
                    #[trigger] out@[k] as int,
                    #[trigger] left@[l] as int,
                ),
            forall|k: int, l: int|
                0 <= k < out@.len() && j <= l < right@.len() ==> comes_before(
                    r,
                    #[trigger] out@[k] as int,
                    #[trigger] right@[l] as int,
                ),
            forall|k: int|
                0 <= k < out@.len() ==> left@.contains(#[trigger] out@[k]) || right@.contains(
                    out@[k],
                ),
            forall|k: int| 0 <= k < i ==> out@.contains(#[trigger] left@[k]),
            forall|k: int| 0 <= k < j ==> out@.contains(#[trigger] right@[k]),
        decreases left@.len() + right@.len() - i - j,
    {
        let ghost before = out@;
        let from_left: bool = if i == left.len() {
            false
        } else if j == right.len() {
            true
        } else {
            let a: usize = left[i];
            let b: usize = right[j];
            if r.is_before(b, a) {
                false
            } else if a < b {
                true
            } else {
                r.is_before(a, b)
            }
        };
        proof {
            if i < left@.len() && j < right@.len() {
                let a = left@[i as int];
                let b = right@[j as int];
                r.lemma_asymmetric(a as int, b as int);
                lemma_comes_before_total(r, a as int, b as int);
                assert(from_left == comes_before(r, a as int, b as int));
                if from_left {
                    assert forall|l: int| j <= l < right@.len() implies comes_before(
                        r,
                        a as int,
                        #[trigger] right@[l] as int,
                    ) by {
                        if l > j {
                            lemma_comes_before_transitive(
                                r,
                                a as int,
                                b as int,
                                right@[l] as int,
                            );
                        }
                    }
                } else {
                    assert forall|l: int| i <= l < left@.len() implies comes_before(
                        r,
                        b as int,
                        #[trigger] left@[l] as int,
                    ) by {
                        if l > i {
                            lemma_comes_before_transitive(r, b as int, a as int, left@[l] as int);
                        }
                    }
                }
            }
        }
        let taken: usize = if from_left {
            left[i]
        } else {
            right[j]
        };
        out.push(taken);
        if from_left {
            i = i + 1;
        } else {
            j = j + 1;
        }
        proof {
            assert(out@[out@.len() - 1] == taken);
            assert forall|k: int| 0 <= k < i implies out@.contains(#[trigger] left@[k]) by {
                if before.contains(left@[k]) {
                    let w = choose|w: int| 0 <= w < before.len() && before[w] == left@[k];
                    assert(out@[w] == left@[k]);
                }
            }
            assert forall|k: int| 0 <= k < j implies out@.contains(#[trigger] right@[k]) by {
                if before.contains(right@[k]) {
                    let w = choose|w: int| 0 <= w < before.len() && before[w] == right@[k];
                    assert(out@[w] == right@[k]);
                }
            }
        }
    }
    out
}

/// Sort the indices in `items`, which are rising.
pub fn sort_indices<R: Ranked>(r: &R, items: &Vec<usize>) -> (out: Vec<usize>)
    requires
        forall|i: int| 0 <= i < items@.len() ==> #[trigger] items@[i] < r.count(),
        forall|i: int, j: int|
            0 <= i < j < items@.len() ==> #[trigger] items@[i] < #[trigger] items@[j],
    ensures
        in_order(r, out@),
        out@.len() == items@.len(),
        forall|x: usize| #[trigger] out@.contains(x) <==> items@.contains(x),
{
    assert(items@.subrange(0, items@.len() as int) =~= items@);
    sort_range(r, items, 0, items.len())
}

/// Sort `items[from..to]`.
fn sort_range<R: Ranked>(r: &R, items: &Vec<usize>, from: usize, to: usize) -> (out: Vec<usize>)
    requires
        from <= to <= items@.len(),
        forall|i: int| 0 <= i < items@.len() ==> #[trigger] items@[i] < r.count(),
        forall|i: int, j: int|
            0 <= i < j < items@.len() ==> #[trigger] items@[i] < #[trigger] items@[j],
    ensures
        in_order(r, out@),
        out@.len() == to - from,
        forall|x: usize| #[trigger]
            out@.contains(x) <==> items@.subrange(from as int, to as int).contains(x),
    decreases to - from,
{
    let ghost part = items@.subrange(from as int, to as int);
    if to - from == 0 {
        return Vec::new();
    }
    if to - from == 1 {
        let mut out: Vec<usize> = Vec::new();
        out.push(items[from]);
        assert(out@ =~= part);
        return out;
    }
    let mid: usize = from + (to - from) / 2;
    let left: Vec<usize> = sort_range(r, items, from, mid);
    let right: Vec<usize> = sort_range(r, items, mid, to);
    proof {
        let a = items@.subrange(from as int, mid as int);
        let b = items@.subrange(mid as int, to as int);
        assert forall|i: int| 0 <= i < left@.len() implies #[trigger] left@[i] < r.count()
            && exists|k: int| from <= k < mid && #[trigger] items@[k] == left@[i] by {
            assert(left@.contains(left@[i]));
            assert(a.contains(left@[i]));
            let w = choose|w: int| 0 <= w < a.len() && a[w] == left@[i];
            assert(items@[from + w] == left@[i]);
        }
        assert forall|i: int| 0 <= i < right@.len() implies #[trigger] right@[i] < r.count()
            && exists|k: int| mid <= k < to && #[trigger] items@[k] == right@[i] by {
            assert(right@.contains(right@[i]));
            assert(b.contains(right@[i]));
            let w = choose|w: int| 0 <= w < b.len() && b[w] == right@[i];
            assert(items@[mid + w] == right@[i]);
        }
        assert(part =~= a + b);
        assert forall|x: usize| #[trigger] part.contains(x) <==> a.contains(x) || b.contains(
            x,
        ) by {
            if part.contains(x) {
                let w = choose|w: int| 0 <= w < part.len() && part[w] == x;
                if w < a.len() {
                    assert(a[w] == x);
                } else {
                    assert(b[w - a.len()] == x);
                }
            }
            if a.contains(x) {
                let w = choose|w: int| 0 <= w < a.len() && a[w] == x;
                assert(part[w] == x);
            }
            if b.contains(x) {
                let w = choose|w: int| 0 <= w < b.len() && b[w] == x;
                assert(part[w + a.len()] == x);
            }
        }
    }
    merge(r, &left, &right)
}

} // verus!
