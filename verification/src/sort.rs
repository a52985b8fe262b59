//! Ordering of scored candidates: a merge sort that puts the higher score
//! first and, among equal scores, the higher position.

use vstd::prelude::*;

verus! {

/// A candidate: its score and its position in the store.
pub type Scored = (i64, usize);

/// Whether `a` comes before `b`: `a` has the higher score, or the same score
/// and the higher position.
pub open spec fn comes_before(a: Scored, b: Scored) -> bool {
    a.0 > b.0 || (a.0 == b.0 && a.1 > b.1)
}

/// Whether each candidate of `s` comes before all that follow it.
pub open spec fn in_order(s: Seq<Scored>) -> bool {
    forall|i: int, j: int| 0 <= i < j < s.len() ==> comes_before(#[trigger] s[i], #[trigger] s[j])
}

/// Whether no candidate occurs twice in `s`.
pub open spec fn all_distinct(s: Seq<Scored>) -> bool {
    forall|i: int, j: int| 0 <= i < j < s.len() ==> #[trigger] s[i] != #[trigger] s[j]
}

fn before(a: Scored, b: Scored) -> (r: bool)
    ensures
        r == comes_before(a, b),
{
    a.0 > b.0 || (a.0 == b.0 && a.1 > b.1)
}

/// Merges two ordered runs that share no candidate into one ordered run.
fn merge(left: &Vec<Scored>, right: &Vec<Scored>) -> (merged: Vec<Scored>)
    requires
        in_order(left@),
        in_order(right@),
        forall|i: int, j: int|
            0 <= i < left@.len() && 0 <= j < right@.len() ==> #[trigger] left@[i]
                != #[trigger] right@[j],
    ensures
        in_order(merged@),
        merged@.len() == left@.len() + right@.len(),
        forall|x: Scored| #[trigger] merged@.contains(x) <==> left@.contains(x) || right@.contains(x),
{
    let mut merged: Vec<Scored> = Vec::new();
    let mut i: usize = 0;
    let mut j: usize = 0;
    while i < left.len() || j < right.len()
        invariant
            i <= left@.len(),
            j <= right@.len(),
            in_order(left@),
            in_order(right@),
            forall|a: int, b: int|
                0 <= a < left@.len() && 0 <= b < right@.len() ==> #[trigger] left@[a]
                    != #[trigger] right@[b],
            merged@.len() == i + j,
            in_order(merged@),
            forall|k: int, a: int|
                0 <= k < merged@.len() && i <= a < left@.len() ==> comes_before(
                    #[trigger] merged@[k],
                    #[trigger] left@[a],
                ),
            forall|k: int, b: int|
                0 <= k < merged@.len() && j <= b < right@.len() ==> comes_before(
                    #[trigger] merged@[k],
                    #[trigger] right@[b],
                ),
            forall|x: Scored| #[trigger]
                merged@.contains(x) <==> left@.take(i as int).contains(x) || right@.take(
                    j as int,
                ).contains(x),
        decreases left@.len() - i + right@.len() - j,
    {
        let ghost so_far = merged@;
        let take_left = if i >= left.len() {
            false
        } else if j >= right.len() {
            true
        } else {
            before(left[i], right[j])
        };
        if take_left {
            let x = left[i];
            merged.push(x);
            proof {
                assert(left@.take(i + 1) =~= left@.take(i as int).push(x));
                assert forall|y: Scored| #[trigger]
                    merged@.contains(y) <==> left@.take(i + 1).contains(y) || right@.take(
                        j as int,
                    ).contains(y) by {
                    lemma_contains_push(so_far, x, y);
                    lemma_contains_push(left@.take(i as int), x, y);
                }
                assert forall|k: int, b: int|
                    0 <= k < merged@.len() && j <= b < right@.len() implies comes_before(
                    #[trigger] merged@[k],
                    #[trigger] right@[b],
                ) by {
                    if k == so_far.len() {
                        assert(comes_before(left@[i as int], right@[j as int]));
                        if b > j {
                            assert(comes_before(right@[j as int], right@[b]));
                        }
                    } else {
                        assert(merged@[k] == so_far[k]);
                    }
                }
                assert forall|k: int, a: int|
                    0 <= k < merged@.len() && i + 1 <= a < left@.len() implies comes_before(
                    #[trigger] merged@[k],
                    #[trigger] left@[a],
                ) by {
                    if k == so_far.len() {
                        assert(comes_before(left@[i as int], left@[a]));
                    } else {
                        assert(merged@[k] == so_far[k]);
                    }
                }
                assert forall|a: int, b: int| 0 <= a < b < merged@.len() implies comes_before(
                    #[trigger] merged@[a],
                    #[trigger] merged@[b],
                ) by {
                    if b == so_far.len() {
                        assert(merged@[a] == so_far[a]);
                        assert(comes_before(so_far[a], left@[i as int]));
                    } else {
                        assert(comes_before(so_far[a], so_far[b]));
                    }
                }
            }
            i += 1;
        } else {
            let x = right[j];
            merged.push(x);
            proof {
                assert(right@.take(j + 1) =~= right@.take(j as int).push(x));
                assert forall|y: Scored| #[trigger]
                    merged@.contains(y) <==> left@.take(i as int).contains(y) || right@.take(
                        j + 1,
                    ).contains(y) by {
                    lemma_contains_push(so_far, x, y);
                    lemma_contains_push(right@.take(j as int), x, y);
                }
                assert forall|k: int, a: int|
                    0 <= k < merged@.len() && i <= a < left@.len() implies comes_before(
                    #[trigger] merged@[k],
                    #[trigger] left@[a],
                ) by {
                    if k == so_far.len() {
                        assert(!comes_before(left@[i as int], right@[j as int]));
                        assert(left@[i as int] != right@[j as int]);
                        assert(comes_before(right@[j as int], left@[i as int]));
                        if a > i {
                            assert(comes_before(left@[i as int], left@[a]));
                        }
                    } else {
                        assert(merged@[k] == so_far[k]);
                    }
                }
                assert forall|k: int, b: int|
                    0 <= k < merged@.len() && j + 1 <= b < right@.len() implies comes_before(
                    #[trigger] merged@[k],
                    #[trigger] right@[b],
                ) by {
                    if k == so_far.len() {
                        assert(comes_before(right@[j as int], right@[b]));
                    } else {
                        assert(merged@[k] == so_far[k]);
                    }
                }
                assert forall|a: int, b: int| 0 <= a < b < merged@.len() implies comes_before(
                    #[trigger] merged@[a],
                    #[trigger] merged@[b],
                ) by {
                    if b == so_far.len() {
                        assert(merged@[a] == so_far[a]);
                        assert(comes_before(so_far[a], right@[j as int]));
                    } else {
                        assert(comes_before(so_far[a], so_far[b]));
                    }
                }
            }
            j += 1;
        }
    }
    assert(left@.take(left@.len() as int) =~= left@);
    assert(right@.take(right@.len() as int) =~= right@);
    merged
}

/// What a sequence holds once `x` is appended: what it held, and `x`.
proof fn lemma_contains_push(s: Seq<Scored>, x: Scored, y: Scored)
    ensures
        s.push(x).contains(y) <==> s.contains(y) || y == x,
{
    if s.contains(y) {
        let k = choose|k: int| 0 <= k < s.len() && s[k] == y;
        assert(s.push(x)[k] == y);
    }
    if y == x {
        assert(s.push(x)[s.len() as int] == y);
    }
    if s.push(x).contains(y) {
        let k = choose|k: int| 0 <= k < s.push(x).len() && s.push(x)[k] == y;
        if k < s.len() {
            assert(s[k] == y);
        }
    }
}

/// What a stretch holds: what its two halves hold.
proof fn lemma_contains_halves(s: Seq<Scored>, lo: int, mid: int, hi: int, x: Scored)
    requires
        0 <= lo <= mid <= hi <= s.len(),
    ensures
        s.subrange(lo, hi).contains(x) <==> s.subrange(lo, mid).contains(x) || s.subrange(
            mid,
            hi,
        ).contains(x),
{
    let whole = s.subrange(lo, hi);
    let left = s.subrange(lo, mid);
    let right = s.subrange(mid, hi);
    if whole.contains(x) {
        let k = choose|k: int| 0 <= k < whole.len() && whole[k] == x;
        if k < mid - lo {
            assert(left[k] == x);
        } else {
            assert(right[k - (mid - lo)] == x);
        }
    }
    if left.contains(x) {
        let k = choose|k: int| 0 <= k < left.len() && left[k] == x;
        assert(whole[k] == x);
    }
    if right.contains(x) {
        let k = choose|k: int| 0 <= k < right.len() && right[k] == x;
        assert(whole[k + (mid - lo)] == x);
    }
}

/// Sorts `items[lo..hi]`, which holds no candidate twice.
fn sort_range(items: &Vec<Scored>, lo: usize, hi: usize) -> (sorted: Vec<Scored>)
    requires
        lo <= hi <= items@.len(),
        all_distinct(items@),
    ensures
        in_order(sorted@),
        sorted@.len() == hi - lo,
        forall|x: Scored| #[trigger]
            sorted@.contains(x) <==> items@.subrange(lo as int, hi as int).contains(x),
    decreases hi - lo,
{
    if hi - lo <= 1 {
        let mut sorted: Vec<Scored> = Vec::new();
        if lo < hi {
            sorted.push(items[lo]);
        }
        assert(sorted@ =~= items@.subrange(lo as int, hi as int));
        sorted
    } else {
        let mid: usize = lo + (hi - lo) / 2;
        let left = sort_range(items, lo, mid);
        let right = sort_range(items, mid, hi);
        proof {
            assert forall|i: int, j: int|
                0 <= i < left@.len() && 0 <= j < right@.len() implies #[trigger] left@[i]
                != #[trigger] right@[j] by {
                assert(left@.contains(left@[i]));
                assert(right@.contains(right@[j]));
                let a = choose|a: int|
                    0 <= a < mid - lo && items@.subrange(lo as int, mid as int)[a] == left@[i];
                let b = choose|b: int|
                    0 <= b < hi - mid && items@.subrange(mid as int, hi as int)[b] == right@[j];
                assert(items@[lo + a] != items@[mid + b]);
            }
        }
        let sorted = merge(&left, &right);
        proof {
            assert forall|x: Scored| #[trigger]
                sorted@.contains(x) <==> items@.subrange(lo as int, hi as int).contains(x) by {
                lemma_contains_halves(items@, lo as int, mid as int, hi as int, x);
            }
        }
        sorted
    }
}

/// Sorts candidates so that the higher score comes first and, among equal
/// scores, the higher position. The result holds exactly the candidates given.
pub(crate) fn sort_scored(items: &Vec<Scored>) -> (sorted: Vec<Scored>)
    requires
        all_distinct(items@),
    ensures
        in_order(sorted@),
        sorted@.len() == items@.len(),
        forall|x: Scored| #[trigger] sorted@.contains(x) <==> items@.contains(x),
{
    assert(items@.subrange(0, items@.len() as int) =~= items@);
    sort_range(items, 0, items.len())
}

} // verus!
