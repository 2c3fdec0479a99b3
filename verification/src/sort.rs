//! Ordering rows by a pair of key columns (merge sort over row indices).
use vstd::prelude::*;
use crate::key::{Cmp, Key, KeyView, key_lt, lemma_key_order, views};

verus! {

/// Row `i` orders strictly before row `j` by `(first, second)`.
pub open spec fn row_lt(first: Seq<KeyView>, second: Seq<KeyView>, i: int, j: int) -> bool {
    key_lt(first[i], first[j]) || (first[i] == first[j] && key_lt(second[i], second[j]))
}

/// Row `i` orders at or before row `j` by `(first, second)`.
pub open spec fn row_le(first: Seq<KeyView>, second: Seq<KeyView>, i: int, j: int) -> bool {
    !row_lt(first, second, j, i)
}

/// `s` lists rows in non-decreasing `(first, second)` order.
pub open spec fn rows_sorted(first: Seq<KeyView>, second: Seq<KeyView>, s: Seq<usize>) -> bool {
    forall|a: int, b: int|
        0 <= a < b < s.len() ==> #[trigger] row_le(first, second, s[a] as int, s[b] as int)
}

/// No index occurs twice in `s`.
pub open spec fn distinct(s: Seq<usize>) -> bool {
    forall|a: int, b: int| 0 <= a < s.len() && 0 <= b < s.len() && a != b ==> s[a] != s[b]
}

/// `p` is a permutation of `0..n`.
pub open spec fn is_perm(p: Seq<usize>, n: nat) -> bool {
    &&& p.len() == n
    &&& distinct(p)
    &&& forall|a: int| 0 <= a < p.len() ==> #[trigger] p[a] < n
    &&& forall|x: usize| x < n ==> #[trigger] p.contains(x)
}

pub proof fn lemma_row_le_trans(first: Seq<KeyView>, second: Seq<KeyView>, a: int, b: int, c: int)
    requires
        row_le(first, second, a, b),
        row_le(first, second, b, c),
    ensures
        row_le(first, second, a, c),
{
    lemma_key_order();
    let (fa, fb, fc) = (first[a], first[b], first[c]);
    let (sa, sb, sc) = (second[a], second[b], second[c]);
    assert(key_lt(fa, fb) || key_lt(fb, fa) || fa == fb);
    assert(key_lt(fb, fc) || key_lt(fc, fb) || fb == fc);
    assert(key_lt(fa, fc) || key_lt(fc, fa) || fa == fc);
    assert(key_lt(sa, sb) || key_lt(sb, sa) || sa == sb);
    assert(key_lt(sb, sc) || key_lt(sc, sb) || sb == sc);
    assert(key_lt(sa, sc) || key_lt(sc, sa) || sa == sc);
    assert(!key_lt(fa, fa) && !key_lt(fb, fb) && !key_lt(fc, fc));
    assert(!key_lt(sa, sa) && !key_lt(sb, sb) && !key_lt(sc, sc));
    if key_lt(fa, fb) && key_lt(fb, fc) {
        assert(key_lt(fa, fc));
    }
    if key_lt(fc, fa) && key_lt(fa, fb) {
        assert(key_lt(fc, fb));
    }
    if key_lt(fb, fc) && key_lt(fc, fa) {
        assert(key_lt(fb, fa));
    }
    if key_lt(sa, sb) && key_lt(sb, sc) {
        assert(key_lt(sa, sc));
    }
    if key_lt(sc, sa) && key_lt(sa, sb) {
        assert(key_lt(sc, sb));
    }
    if key_lt(sb, sc) && key_lt(sc, sa) {
        assert(key_lt(sb, sa));
    }
}

/// Pushing onto a sequence adds exactly the pushed element.
pub proof fn lemma_push_contains(s: Seq<usize>, x: usize, y: usize)
    ensures
        s.push(x).contains(y) <==> (s.contains(y) || y == x),
{
    if s.push(x).contains(y) && y != x {
        let t = choose|t: int| 0 <= t < s.len() + 1 && s.push(x)[t] == y;
        assert(s[t] == y);
    }
    if s.contains(y) {
        let t = choose|t: int| 0 <= t < s.len() && s[t] == y;
        assert(s.push(x)[t] == y);
    }
    assert(s.push(x)[s.len() as int] == x);
}

pub proof fn lemma_row_le_total(first: Seq<KeyView>, second: Seq<KeyView>, a: int, b: int)
    ensures
        row_le(first, second, a, b) || row_le(first, second, b, a),
{
    lemma_key_order();
}

/// Whether row `i` orders at or before row `j`.
pub fn row_le_exec(first: &Vec<Key>, second: &Vec<Key>, i: usize, j: usize) -> (r: bool)
    requires
        i < first.len(),
        j < first.len(),
        first.len() == second.len(),
    ensures
        r == row_le(views(first@), views(second@), i as int, j as int),
{
    proof {
        lemma_key_order();
    }
    match first[j].compare(&first[i]) {
        Cmp::Less => false,
        Cmp::Greater => true,
        Cmp::Equal => match second[j].compare(&second[i]) {
            Cmp::Less => false,
            _ => true,
        },
    }
}

fn merge(first: &Vec<Key>, second: &Vec<Key>, left: Vec<usize>, right: Vec<usize>) -> (out: Vec<usize>)
    requires
        first.len() == second.len(),
        forall|a: int| 0 <= a < left.len() ==> #[trigger] left[a] < first.len(),
        forall|a: int| 0 <= a < right.len() ==> #[trigger] right[a] < first.len(),
        rows_sorted(views(first@), views(second@), left@),
        rows_sorted(views(first@), views(second@), right@),
        distinct(left@),
        distinct(right@),
        forall|a: int, b: int|
            0 <= a < left.len() && 0 <= b < right.len() ==> left[a] != right[b],
        left.len() + right.len() <= usize::MAX,
    ensures
        out.len() == left.len() + right.len(),
        distinct(out@),
        forall|x: usize| out@.contains(x) <==> (left@.contains(x) || right@.contains(x)),
        rows_sorted(views(first@), views(second@), out@),
{
    let mut out: Vec<usize> = Vec::new();
    let mut i: usize = 0;
    let mut j: usize = 0;
    while i < left.len() || j < right.len()
        invariant
            first.len() == second.len(),
            forall|a: int| 0 <= a < left.len() ==> #[trigger] left[a] < first.len(),
            forall|a: int| 0 <= a < right.len() ==> #[trigger] right[a] < first.len(),
            rows_sorted(views(first@), views(second@), left@),
            rows_sorted(views(first@), views(second@), right@),
            distinct(left@),
            distinct(right@),
            forall|a: int, b: int|
                0 <= a < left.len() && 0 <= b < right.len() ==> left[a] != right[b],
            left.len() + right.len() <= usize::MAX,
            i <= left.len(),
            j <= right.len(),
            out.len() == i + j,
            distinct(out@),
            forall|x: usize|
                out@.contains(x) <==> (left@.take(i as int).contains(x) || right@.take(
                    j as int,
                ).contains(x)),
            rows_sorted(views(first@), views(second@), out@),
            forall|a: int, k: int|
                0 <= a < out.len() && i <= k < left.len() ==> #[trigger] row_le(
                    views(first@),
                    views(second@),
                    out[a] as int,
                    left[k] as int,
                ),
            forall|a: int, k: int|
                0 <= a < out.len() && j <= k < right.len() ==> #[trigger] row_le(
                    views(first@),
                    views(second@),
                    out[a] as int,
                    right[k] as int,
                ),
        decreases left.len() + right.len() - i - j,
    {
        let take_left = if i < left.len() && j < right.len() {
            row_le_exec(first, second, left[i], right[j])
        } else {
            i < left.len()
        };
        let ghost old_out = out@;
        if take_left {
            let x = left[i];
            proof {
                assert forall|k: int| j <= k < right.len() implies #[trigger] row_le(
                    views(first@),
                    views(second@),
                    x as int,
                    right[k] as int,
                ) by {
                    if k > j {
                        assert(row_le(views(first@), views(second@), right[j as int] as int, right[k] as int));
                        lemma_row_le_trans(
                            views(first@),
                            views(second@),
                            x as int,
                            right[j as int] as int,
                            right[k] as int,
                        );
                    }
                }
                assert forall|k: int| i < k < left.len() implies #[trigger] row_le(
                    views(first@),
                    views(second@),
                    x as int,
                    left[k] as int,
                ) by {
                    assert(row_le(views(first@), views(second@), left[i as int] as int, left[k] as int));
                }
                assert(!left@.take(i as int).contains(x)) by {
                    if left@.take(i as int).contains(x) {
                        let t = choose|t: int| 0 <= t < i && left@.take(i as int)[t] == x;
                        assert(left[t] == left[i as int]);
                    }
                }
                assert(!right@.take(j as int).contains(x)) by {
                    if right@.take(j as int).contains(x) {
                        let t = choose|t: int| 0 <= t < j && right@.take(j as int)[t] == x;
                        assert(right[t] == x);
                    }
                }
            }
            out.push(x);
            i = i + 1;
            proof {
                assert(left@.take(i as int) =~= left@.take(i - 1).push(x));
                assert(out@ =~= old_out.push(x));
                assert forall|y: usize|
                    out@.contains(y) <==> (left@.take(i as int).contains(y) || right@.take(
                        j as int,
                    ).contains(y)) by {
                    lemma_push_contains(old_out, x, y);
                    lemma_push_contains(left@.take(i - 1), x, y);
                }
                assert(distinct(out@)) by {
                    assert forall|a: int, b: int|
                        0 <= a < out.len() && 0 <= b < out.len() && a != b implies out@[a]
                        != out@[b] by {
                        if a == out.len() - 1 {
                            assert(old_out.contains(out@[b]));
                        } else if b == out.len() - 1 {
                            assert(old_out.contains(out@[a]));
                        }
                    }
                }
            }
        } else {
            let x = right[j];
            proof {
                assert(i < left.len() ==> !row_le(views(first@), views(second@), left[i as int] as int, x as int));
                assert forall|k: int| i <= k < left.len() implies #[trigger] row_le(
                    views(first@),
                    views(second@),
                    x as int,
                    left[k] as int,
                ) by {
                    lemma_row_le_total(views(first@), views(second@), left[i as int] as int, x as int);
                    if k > i {
                        assert(row_le(views(first@), views(second@), left[i as int] as int, left[k] as int));
                        lemma_row_le_trans(
                            views(first@),
                            views(second@),
                            x as int,
                            left[i as int] as int,
                            left[k] as int,
                        );
                    }
                }
                assert forall|k: int| j < k < right.len() implies #[trigger] row_le(
                    views(first@),
                    views(second@),
                    x as int,
                    right[k] as int,
                ) by {
                    assert(row_le(views(first@), views(second@), right[j as int] as int, right[k] as int));
                }
                assert(!right@.take(j as int).contains(x)) by {
                    if right@.take(j as int).contains(x) {
                        let t = choose|t: int| 0 <= t < j && right@.take(j as int)[t] == x;
                        assert(right[t] == right[j as int]);
                    }
                }
                assert(!left@.take(i as int).contains(x)) by {
                    if left@.take(i as int).contains(x) {
                        let t = choose|t: int| 0 <= t < i && left@.take(i as int)[t] == x;
                        assert(left[t] == x);
                    }
                }
            }
            out.push(x);
            j = j + 1;
            proof {
                assert(right@.take(j as int) =~= right@.take(j - 1).push(x));
                assert(out@ =~= old_out.push(x));
                assert forall|y: usize|
                    out@.contains(y) <==> (left@.take(i as int).contains(y) || right@.take(
                        j as int,
                    ).contains(y)) by {
                    lemma_push_contains(old_out, x, y);
                    lemma_push_contains(right@.take(j - 1), x, y);
                }
                assert(distinct(out@)) by {
                    assert forall|a: int, b: int|
                        0 <= a < out.len() && 0 <= b < out.len() && a != b implies out@[a]
                        != out@[b] by {
                        if a == out.len() - 1 {
                            assert(old_out.contains(out@[b]));
                        } else if b == out.len() - 1 {
                            assert(old_out.contains(out@[a]));
                        }
                    }
                }
            }
        }
    }
    assert(left@.take(left.len() as int) =~= left@);
    assert(right@.take(right.len() as int) =~= right@);
    out
}

fn sort_range(first: &Vec<Key>, second: &Vec<Key>, lo: usize, hi: usize) -> (out: Vec<usize>)
    requires
        first.len() == second.len(),
        lo <= hi <= first.len(),
    ensures
        out.len() == hi - lo,
        distinct(out@),
        forall|x: usize| out@.contains(x) <==> lo <= x < hi,
        rows_sorted(views(first@), views(second@), out@),
    decreases hi - lo,
{
    if hi - lo <= 1 {
        let mut out: Vec<usize> = Vec::new();
        if hi > lo {
            out.push(lo);
        }
        proof {
            assert forall|x: usize| out@.contains(x) <==> lo <= x < hi by {
                if lo <= x < hi {
                    assert(out@[0] == x);
                }
            }
        }
        out
    } else {
        let mid = lo + (hi - lo) / 2;
        let left = sort_range(first, second, lo, mid);
        let right = sort_range(first, second, mid, hi);
        proof {
            assert forall|a: int| 0 <= a < left.len() implies #[trigger] left[a] < first.len() by {
                assert(left@.contains(left[a]));
            }
            assert forall|a: int| 0 <= a < right.len() implies #[trigger] right[a]
                < first.len() by {
                assert(right@.contains(right[a]));
            }
            assert forall|a: int, b: int|
                0 <= a < left.len() && 0 <= b < right.len() implies left[a] != right[b] by {
                assert(left@.contains(left[a]));
                assert(right@.contains(right[b]));
            }
        }
        merge(first, second, left, right)
    }
}

/// The row indices `0..n`, ordered by `(first, second)`.
pub fn argsort_rows(first: &Vec<Key>, second: &Vec<Key>) -> (p: Vec<usize>)
    requires
        first.len() == second.len(),
    ensures
        is_perm(p@, first.len() as nat),
        rows_sorted(views(first@), views(second@), p@),
{
    let p = sort_range(first, second, 0, first.len());
    proof {
        assert forall|a: int| 0 <= a < p.len() implies #[trigger] p[a] < first.len() by {
            assert(p@.contains(p[a]));
        }
    }
    p
}

/// Two rows that order each at or before the other carry equal keys.
pub proof fn lemma_row_le_antisym(first: Seq<KeyView>, second: Seq<KeyView>, a: int, b: int)
    requires
        row_le(first, second, a, b),
        row_le(first, second, b, a),
    ensures
        first[a] == first[b],
        second[a] == second[b],
{
    lemma_key_order();
}

/// Every pair of rows, in index order, is in `(first, second)` order.
pub open spec fn pairs_sorted(first: Seq<KeyView>, second: Seq<KeyView>) -> bool {
    forall|a: int, b: int| 0 <= a < b < first.len() ==> #[trigger] row_le(first, second, a, b)
}

/// Rows in order pairwise when each row is in order with the next.
pub proof fn lemma_adjacent_sorted(first: Seq<KeyView>, second: Seq<KeyView>)
    requires
        forall|i: int| 1 <= i < first.len() ==> #[trigger] row_le(first, second, i - 1, i),
    ensures
        pairs_sorted(first, second),
{
    assert forall|a: int, b: int| 0 <= a < b < first.len() implies #[trigger] row_le(
        first,
        second,
        a,
        b,
    ) by {
        lemma_adjacent_sorted_from(first, second, a, b);
    }
}

proof fn lemma_adjacent_sorted_from(first: Seq<KeyView>, second: Seq<KeyView>, a: int, b: int)
    requires
        forall|i: int| 1 <= i < first.len() ==> #[trigger] row_le(first, second, i - 1, i),
        0 <= a < b < first.len(),
    ensures
        row_le(first, second, a, b),
    decreases b - a,
{
    assert(row_le(first, second, b - 1, b));
    if b - a > 1 {
        lemma_adjacent_sorted_from(first, second, a, b - 1);
        lemma_row_le_trans(first, second, a, b - 1, b);
    }
}

/// A sequence of keys taken in the order `p`.
pub open spec fn permute_keys(s: Seq<KeyView>, p: Seq<usize>) -> Seq<KeyView> {
    Seq::new(p.len(), |i: int| s[p[i] as int])
}

/// Taking rows in a sorted order gives sorted keys.
pub proof fn lemma_permuted_sorted(first: Seq<KeyView>, second: Seq<KeyView>, p: Seq<usize>)
    requires
        rows_sorted(first, second, p),
    ensures
        pairs_sorted(permute_keys(first, p), permute_keys(second, p)),
{
    let f2 = permute_keys(first, p);
    let s2 = permute_keys(second, p);
    assert forall|a: int, b: int| 0 <= a < b < f2.len() implies #[trigger] row_le(f2, s2, a, b) by {
        assert(row_le(first, second, p[a] as int, p[b] as int));
    }
}

} // verus!
