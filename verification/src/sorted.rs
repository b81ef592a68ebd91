//! Primitives over ascending sequences of node ids: intersection test,
//! intersection, and in-place union, each by a linear two-pointer merge.

use vstd::prelude::*;

verus! {

/// The sequence is ascending; repeated values are allowed.
pub open spec fn sorted(s: Seq<usize>) -> bool {
    forall|i: int, j: int| 0 <= i < j < s.len() ==> s[i] <= s[j]
}

/// The sequence is strictly ascending: sorted and duplicate-free.
pub open spec fn strictly_sorted(s: Seq<usize>) -> bool {
    forall|i: int, j: int| 0 <= i < j < s.len() ==> s[i] < s[j]
}

/// `r` is ascending, duplicate-free, and holds exactly the values common to
/// `a` and `b`.
pub open spec fn is_intersection(r: Seq<usize>, a: Seq<usize>, b: Seq<usize>) -> bool {
    &&& strictly_sorted(r)
    &&& forall|x: usize|
        #![trigger r.contains(x)]
        #![trigger a.contains(x)]
        #![trigger b.contains(x)]
        r.contains(x) <==> (a.contains(x) && b.contains(x))
}

/// Pushing a value adds exactly that value to a sequence's contents.
pub proof fn lemma_push_contains(s: Seq<usize>, x: usize)
    ensures
        forall|y: usize| #[trigger] s.push(x).contains(y) <==> (s.contains(y) || y == x),
{
    assert forall|y: usize| #[trigger] s.push(x).contains(y) implies (s.contains(y) || y == x) by {
        let k = choose|k: int| 0 <= k < s.push(x).len() && s.push(x)[k] == y;
        if k < s.len() {
            assert(s[k] == y);
        }
    }
    assert forall|y: usize| s.contains(y) implies s.push(x).contains(y) by {
        let k = choose|k: int| 0 <= k < s.len() && s[k] == y;
        assert(s.push(x)[k] == y);
    }
    assert(s.push(x)[s.len() as int] == x);
}

/// Pushing a value larger than all present keeps a sequence strictly
/// ascending.
pub proof fn lemma_push_sorted(s: Seq<usize>, x: usize)
    requires
        strictly_sorted(s),
        forall|y: usize| #[trigger] s.contains(y) ==> y < x,
    ensures
        strictly_sorted(s.push(x)),
{
    assert forall|p: int, q: int|
        0 <= p < q < s.push(x).len() implies s.push(x)[p] < s.push(x)[q] by {
        if q == s.len() {
            assert(s.contains(s[p]));
        }
    }
}

/// Extending a prefix by one position adds exactly the value at that position.
pub proof fn lemma_prefix_extend(s: Seq<usize>, k: int)
    requires
        0 <= k < s.len(),
    ensures
        forall|y: usize| #[trigger]
            s.subrange(0, k + 1).contains(y) <==> (s.subrange(0, k).contains(y) || y == s[k]),
{
    assert forall|y: usize| #[trigger]
        s.subrange(0, k + 1).contains(y) implies (s.subrange(0, k).contains(y) || y == s[k]) by {
        let t = choose|t: int| 0 <= t < k + 1 && #[trigger] s.subrange(0, k + 1)[t] == y;
        if t < k {
            assert(s.subrange(0, k)[t] == y);
        }
    }
    assert forall|y: usize| s.subrange(0, k).contains(y) implies s.subrange(0, k + 1).contains(
        y,
    ) by {
        let t = choose|t: int| 0 <= t < k && #[trigger] s.subrange(0, k)[t] == y;
        assert(s.subrange(0, k + 1)[t] == y);
    }
    assert(s.subrange(0, k + 1)[k] == s[k]);
}

/// A full prefix is the sequence itself.
pub proof fn lemma_prefix_full(s: Seq<usize>)
    ensures
        s.subrange(0, s.len() as int) == s,
{
    assert(s.subrange(0, s.len() as int) =~= s);
}

/// Reports whether two ascending sequences share at least one value.
pub fn do_intersect_sorted(left: &[usize], right: &[usize]) -> (r: bool)
    requires
        sorted(left@),
        sorted(right@),
    ensures
        r == exists|x: usize| left@.contains(x) && right@.contains(x),
{
    let mut i: usize = 0;
    let mut j: usize = 0;
    while i < left.len() && j < right.len()
        invariant
            i <= left@.len(),
            j <= right@.len(),
            sorted(left@),
            sorted(right@),
            forall|a: int, b: int|
                0 <= a < left@.len() && 0 <= b < right@.len() && left@[a] == right@[b] ==> a >= i
                    && b >= j,
        decreases left@.len() - i + right@.len() - j,
    {
        if left[i] < right[j] {
            i += 1;
        } else if left[i] > right[j] {
            j += 1;
        } else {
            assert(left@.contains(left@[i as int]) && right@.contains(right@[j as int]));
            return true;
        }
    }
    assert forall|x: usize| !(left@.contains(x) && right@.contains(x)) by {
        if left@.contains(x) && right@.contains(x) {
            let a = choose|a: int| 0 <= a < left@.len() && left@[a] == x;
            let b = choose|b: int| 0 <= b < right@.len() && right@[b] == x;
            assert(a >= i && b >= j);
        }
    }
    false
}

/// Returns the ascending, duplicate-free intersection of two ascending
/// sequences.
pub fn intersect_sorted(left: &[usize], right: &[usize]) -> (r: Vec<usize>)
    requires
        sorted(left@),
        sorted(right@),
    ensures
        is_intersection(r@, left@, right@),
{
    let mut out: Vec<usize> = Vec::new();
    let mut i: usize = 0;
    let mut j: usize = 0;
    while i < left.len() && j < right.len()
        invariant
            i <= left@.len(),
            j <= right@.len(),
            sorted(left@),
            sorted(right@),
            strictly_sorted(out@),
            forall|x: usize| #[trigger]
                out@.contains(x) ==> exists|a: int| 0 <= a < i && left@[a] == x,
            forall|x: usize|
                #![trigger out@.contains(x)]
                #![trigger left@.contains(x)]
                #![trigger right@.contains(x)]
                out@.contains(x) ==> (left@.contains(x) && right@.contains(x)),
            forall|a: int, b: int|
                0 <= a < left@.len() && 0 <= b < right@.len() && left@[a] == right@[b] && !(a >= i
                    && b >= j) ==> out@.contains(left@[a]),
        decreases left@.len() - i + right@.len() - j,
    {
        if left[i] < right[j] {
            assert forall|a: int, b: int|
                0 <= a < left@.len() && 0 <= b < right@.len() && left@[a] == right@[b] && !(a >= i
                    + 1 && b >= j) implies out@.contains(left@[a]) by {
                if a >= i && b >= j {
                    assert(left@[a] == left@[i as int] ==> right@[b] < right@[j as int]);
                }
            }
            i += 1;
        } else if left[i] > right[j] {
            j += 1;
        } else {
            let x = left[i];
            let ghost old_out = out@;
            if out.len() == 0 || out[out.len() - 1] < x {
                proof {
                    lemma_push_contains(old_out, x);
                    assert forall|y: usize| #[trigger] old_out.contains(y) implies y < x by {
                        let k = choose|k: int| 0 <= k < old_out.len() && old_out[k] == y;
                        if k < old_out.len() - 1 {
                            assert(old_out[k] < old_out[old_out.len() - 1]);
                        }
                    }
                    lemma_push_sorted(old_out, x);
                }
                out.push(x);
            } else {
                // the last value held is `x` itself: `out` only holds values
                // seen in `left[..i]`, all at most `left[i]`
                proof {
                    assert(old_out.contains(old_out[old_out.len() - 1]));
                    let a = choose|a: int|
                        0 <= a < i && left@[a] == old_out[old_out.len() - 1];
                    assert(left@[a] <= left@[i as int]);
                    assert(old_out[old_out.len() - 1] == x);
                }
            }
            assert(out@.contains(x));
            assert(left@.contains(x) && right@.contains(x));
            i += 1;
            j += 1;
        }
    }
    assert forall|x: usize| (left@.contains(x) && right@.contains(x)) implies out@.contains(x) by {
        let a = choose|a: int| 0 <= a < left@.len() && left@[a] == x;
        let b = choose|b: int| 0 <= b < right@.len() && right@[b] == x;
        assert(!(a >= i && b >= j));
    }
    out
}

/// Merges the values of `right` into `left`, leaving in `left` the ascending,
/// duplicate-free union of the two.
pub fn union_into_sorted(left: &mut Vec<usize>, right: &[usize])
    requires
        strictly_sorted(old(left)@),
        strictly_sorted(right@),
    ensures
        strictly_sorted(final(left)@),
        forall|x: usize|
            #![trigger final(left)@.contains(x)]
            #![trigger old(left)@.contains(x)]
            #![trigger right@.contains(x)]
            final(left)@.contains(x) <==> (old(left)@.contains(x) || right@.contains(x)),
{
    let ghost a = left@;
    let mut out: Vec<usize> = Vec::new();
    let mut i: usize = 0;
    let mut j: usize = 0;
    let n = left.len();
    let m = right.len();
    while i < n || j < m
        invariant
            i <= n,
            j <= m,
            n == a.len(),
            m == right@.len(),
            left@ == a,
            strictly_sorted(a),
            strictly_sorted(right@),
            strictly_sorted(out@),
            forall|x: usize|
                #![trigger out@.contains(x)]
                #![trigger a.contains(x)]
                #![trigger right@.contains(x)]
                out@.contains(x) <==> (a.subrange(0, i as int).contains(x) || right@.subrange(
                    0,
                    j as int,
                ).contains(x)),
            forall|y: usize| #[trigger]
                out@.contains(y) ==> (i < n ==> y < a[i as int]) && (j < m ==> y < right@[j as int]),
        decreases n - i + m - j,
    {
        let ghost old_out = out@;
        let take_left: bool = if j >= m {
            true
        } else if i >= n {
            false
        } else {
            left[i] <= right[j]
        };
        if take_left {
            let x = left[i];
            let both: bool = j < m && right[j] == x;
            proof {
                lemma_push_contains(old_out, x);
                lemma_push_sorted(old_out, x);
                lemma_prefix_extend(a, i as int);
                if both {
                    lemma_prefix_extend(right@, j as int);
                }
            }
            out.push(x);
            i += 1;
            if both {
                j += 1;
            }
        } else {
            let x = right[j];
            proof {
                lemma_push_contains(old_out, x);
                lemma_push_sorted(old_out, x);
                lemma_prefix_extend(right@, j as int);
            }
            out.push(x);
            j += 1;
        }
    }
    proof {
        lemma_prefix_full(a);
        lemma_prefix_full(right@);
    }
    *left = out;
}

/// Two strictly ascending sequences holding the same values are equal.
pub proof fn lemma_strictly_sorted_unique(a: Seq<usize>, b: Seq<usize>)
    requires
        strictly_sorted(a),
        strictly_sorted(b),
        forall|x: usize|
            #![trigger a.contains(x)]
            #![trigger b.contains(x)]
            a.contains(x) <==> b.contains(x),
    ensures
        a == b,
    decreases a.len(),
{
    if a.len() == 0 {
        if b.len() > 0 {
            assert(b.contains(b[0]));
            assert(a.contains(b[0]));
        }
        assert(a =~= b);
    } else {
        assert(a.contains(a[0]));
        assert(b.contains(b[0]));
        assert(b.contains(a[0]));
        assert(a.contains(b[0]));
        let ka = choose|k: int| 0 <= k < a.len() && a[k] == b[0];
        let kb = choose|k: int| 0 <= k < b.len() && b[k] == a[0];
        assert(ka > 0 ==> a[0] < a[ka]);
        assert(kb > 0 ==> b[0] < b[kb]);
        assert(a[0] == b[0]);
        let at = a.subrange(1, a.len() as int);
        let bt = b.subrange(1, b.len() as int);
        assert forall|x: usize| #[trigger] at.contains(x) implies bt.contains(x) by {
            let k = choose|k: int| 0 <= k < at.len() && #[trigger] at[k] == x;
            assert(a[k + 1] == x);
            assert(a.contains(x));
            let k2 = choose|k2: int| 0 <= k2 < b.len() && b[k2] == x;
            assert(a[0] < a[k + 1]);
            assert(k2 > 0);
            assert(bt[k2 - 1] == x);
        }
        assert forall|x: usize| #[trigger] bt.contains(x) implies at.contains(x) by {
            let k = choose|k: int| 0 <= k < bt.len() && #[trigger] bt[k] == x;
            assert(b[k + 1] == x);
            assert(b.contains(x));
            let k2 = choose|k2: int| 0 <= k2 < a.len() && a[k2] == x;
            assert(b[0] < b[k + 1]);
            assert(k2 > 0);
            assert(at[k2 - 1] == x);
        }
        assert(strictly_sorted(at)) by {
            assert(forall|i: int, j: int|
                0 <= i < j < at.len() ==> at[i] == a[i + 1] && at[j] == a[j + 1]);
        }
        assert(strictly_sorted(bt)) by {
            assert(forall|i: int, j: int|
                0 <= i < j < bt.len() ==> bt[i] == b[i + 1] && bt[j] == b[j + 1]);
        }
        lemma_strictly_sorted_unique(at, bt);
        assert forall|i: int| 0 <= i < a.len() implies a[i] == b[i] by {
            if i > 0 {
                assert(at[i - 1] == a[i]);
                assert(bt[i - 1] == b[i]);
            }
        }
        assert(a =~= b);
    }
}

/// A strictly ascending sequence whose values all occur in another strictly
/// ascending sequence is no longer than it, and equal to it when the lengths
/// agree.
pub proof fn lemma_strict_subset_len(a: Seq<usize>, b: Seq<usize>)
    requires
        strictly_sorted(a),
        strictly_sorted(b),
        forall|x: usize| #[trigger] a.contains(x) ==> b.contains(x),
    ensures
        a.len() <= b.len(),
        a.len() == b.len() ==> a == b,
    decreases a.len(),
{
    if a.len() > 0 {
        let last = a[a.len() - 1];
        assert(a.contains(last));
        let j = choose|j: int| 0 <= j < b.len() && b[j] == last;
        let a0 = a.subrange(0, a.len() - 1);
        let b0 = b.subrange(0, j);
        assert(strictly_sorted(a0)) by {
            assert(forall|p: int, q: int| 0 <= p < q < a0.len() ==> a0[p] == a[p] && a0[q] == a[q]);
        }
        assert(strictly_sorted(b0)) by {
            assert(forall|p: int, q: int| 0 <= p < q < b0.len() ==> b0[p] == b[p] && b0[q] == b[q]);
        }
        assert forall|x: usize| #[trigger] a0.contains(x) implies b0.contains(x) by {
            let p = choose|p: int| 0 <= p < a0.len() && a0[p] == x;
            assert(a[p] == x);
            assert(a.contains(x));
            assert(b.contains(x));
            let q = choose|q: int| 0 <= q < b.len() && b[q] == x;
            assert(a[p] < last);
            assert(q < j ==> b[q] < b[j]);
            assert(j < q ==> b[j] < b[q]);
            assert(q < j);
            assert(b0[q] == x);
        }
        lemma_strict_subset_len(a0, b0);
        assert(a.len() - 1 <= j);
        if a.len() == b.len() {
            assert(j == b.len() - 1);
            assert(a0.len() == b0.len());
            assert(a0 == b0);
            assert forall|i: int| 0 <= i < a.len() implies a[i] == b[i] by {
                if i < a.len() - 1 {
                    assert(a0[i] == a[i] && b0[i] == b[i]);
                }
            }
            assert(a =~= b);
        }
    }
}

/// Intersecting a set with an intersection it already took part in changes
/// nothing: the intersection of `a` with `intersect(a, b)` is `intersect(a, b)`
/// itself.
pub proof fn lemma_intersect_absorbs(a: Seq<usize>, b: Seq<usize>, ab: Seq<usize>, aab: Seq<usize>)
    requires
        is_intersection(ab, a, b),
        is_intersection(aab, a, ab),
    ensures
        aab == ab,
{
    assert forall|x: usize|
        #![trigger aab.contains(x)]
        #![trigger ab.contains(x)]
        aab.contains(x) <==> ab.contains(x) by {
        assert(aab.contains(x) <==> (a.contains(x) && ab.contains(x)));
    }
    lemma_strictly_sorted_unique(aab, ab);
}

/// Two ascending sequences share a value exactly when their intersection is
/// non-empty.
pub proof fn lemma_intersects_iff_nonempty(a: Seq<usize>, b: Seq<usize>, ab: Seq<usize>)
    requires
        is_intersection(ab, a, b),
    ensures
        (exists|x: usize| a.contains(x) && b.contains(x)) <==> ab.len() > 0,
{
    if ab.len() > 0 {
        assert(ab.contains(ab[0]));
        assert(a.contains(ab[0]) && b.contains(ab[0]));
    }
    if exists|x: usize| a.contains(x) && b.contains(x) {
        let x = choose|x: usize| a.contains(x) && b.contains(x);
        assert(ab.contains(x));
    }
}

} // verus!
