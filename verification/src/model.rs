//! Mathematical model of a slice stack's contents: fragmentation,
//! completeness, sub-range reversal, and the membership bitmask used by the
//! scanning algorithms, together with the laws that relate them.

use vstd::prelude::*;
use vstd::seq_lib::lemma_multiset_commutative;

verus! {

/// Number of maximal runs of equal adjacent values: 0 for the empty
/// sequence, otherwise 1 plus the number of adjacent unequal pairs.
pub open spec fn frag(s: Seq<u8>) -> int
    decreases s.len(),
{
    if s.len() == 0 {
        0
    } else if s.len() == 1 {
        1
    } else {
        frag(s.drop_last()) + if s[s.len() - 2] == s[s.len() - 1] {
            0int
        } else {
            1int
        }
    }
}

/// A sequence is complete when every value occupies one contiguous run:
/// whatever lies between two equal values is itself equal to them.
pub open spec fn complete(s: Seq<u8>) -> bool {
    forall|i: int, k: int, j: int|
        0 <= i <= k <= j < s.len() && s[i] == s[j] ==> s[k] == s[i]
}

/// Number of distinct values present in the sequence.
pub open spec fn distinct_count(s: Seq<u8>) -> int {
    s.to_set().len() as int
}

/// The sequence with the positions of `[lo, hi)` reversed and every other
/// position unchanged.
pub open spec fn reverse_range(s: Seq<u8>, lo: int, hi: int) -> Seq<u8>
    recommends
        0 <= lo <= hi <= s.len(),
{
    Seq::new(s.len(), |i: int| if lo <= i < hi {
        s[lo + hi - 1 - i]
    } else {
        s[i]
    })
}

/// Position `i` joins the left edge: it carries the edge value and at least
/// one differing value stands between it and the edge.
pub open spec fn left_join_at(p: Seq<u8>, i: int) -> bool {
    0 <= i < p.len() && p[i] == p[0] && exists|j: int| 0 <= j < i && #[trigger] p[j] != p[0]
}

/// Position `i` joins the right edge: it carries the edge value and at least
/// one differing value stands between it and the edge. The leftmost position
/// is never reported for the right edge.
pub open spec fn right_join_at(p: Seq<u8>, i: int) -> bool {
    1 <= i < p.len() && p[i] == p[p.len() - 1] && exists|j: int|
        i < j < p.len() && #[trigger] p[j] != p[p.len() - 1]
}

pub open spec fn has_left_join(p: Seq<u8>) -> bool {
    exists|i: int| left_join_at(p, i)
}

pub open spec fn has_right_join(p: Seq<u8>) -> bool {
    exists|i: int| right_join_at(p, i)
}

/// A forward double-move boundary: the value at `i` differs from its left
/// neighbour although it occurred before, so its earlier run is not
/// contiguous with it.
pub open spec fn fwd_hit(p: Seq<u8>, i: int) -> bool {
    1 <= i < p.len() && p[i] != p[i - 1] && exists|j: int| 0 <= j < i && #[trigger] p[j] == p[i]
}

/// A backward double-move boundary: the value at `i` differs from its right
/// neighbour although it occurs again further right. The leftmost position
/// is never examined by the backward scan.
pub open spec fn back_hit(p: Seq<u8>, i: int) -> bool {
    1 <= i < p.len() - 1 && p[i] != p[i + 1] && exists|j: int| i < j < p.len() && #[trigger] p[j] == p[i]
}

pub open spec fn has_back_hit(p: Seq<u8>) -> bool {
    exists|i: int| back_hit(p, i)
}

/// Bit `v` of the membership mask.
pub open spec fn bit_set(mask: u32, v: u8) -> bool
    recommends
        v < 32,
{
    mask & (1u32 << (v as u32)) != 0
}

/// No bit is set in the empty mask.
pub proof fn lemma_bit_set_empty()
    ensures
        forall|v: u8| v < 32 ==> !#[trigger] bit_set(0u32, v),
{
    assert forall|v: u8| v < 32 implies !#[trigger] bit_set(0u32, v) by {
        assert(0u32 & (1u32 << (v as u32)) == 0) by (bit_vector);
    }
}

/// Folding one value into the mask sets exactly its bit.
pub proof fn lemma_bit_set_or(mask: u32, t: u8)
    requires
        t < 32,
    ensures
        forall|v: u8|
            v < 32 ==> #[trigger] bit_set(mask | (1u32 << (t as u32)), v) == (bit_set(mask, v)
                || v == t),
{
    assert forall|v: u8|
        v < 32 implies #[trigger] bit_set(mask | (1u32 << (t as u32)), v) == (bit_set(mask, v)
        || v == t) by {
        assert(((mask | (1u32 << (t as u32))) & (1u32 << (v as u32)) != 0) == ((mask & (1u32 << (
        v as u32)) != 0) || v == t)) by (bit_vector)
            requires
                t < 32 && v < 32,
        ;
    }
}

/// Membership in a sequence extended by one value.
pub proof fn lemma_contains_push(t: Seq<u8>, x: u8)
    ensures
        forall|v: u8| #[trigger] t.push(x).contains(v) <==> (t.contains(v) || v == x),
{
    assert forall|v: u8| #[trigger] t.push(x).contains(v) <==> (t.contains(v) || v == x) by {
        if t.push(x).contains(v) {
            let idx = choose|idx: int| 0 <= idx < t.push(x).len() && t.push(x)[idx] == v;
            if idx < t.len() {
                assert(t[idx] == v);
            }
        }
        if t.contains(v) {
            let idx = choose|idx: int| 0 <= idx < t.len() && t[idx] == v;
            assert(t.push(x)[idx] == v);
        }
        if v == x {
            assert(t.push(x)[t.len() as int] == v);
        }
    }
}

/// Membership in a sequence extended by one value at the front.
pub proof fn lemma_contains_prepend(t: Seq<u8>, x: u8)
    ensures
        forall|v: u8| #[trigger] (seq![x] + t).contains(v) <==> (t.contains(v) || v == x),
{
    assert forall|v: u8| #[trigger] (seq![x] + t).contains(v) <==> (t.contains(v) || v == x) by {
        let s = seq![x] + t;
        if s.contains(v) {
            let idx = choose|idx: int| 0 <= idx < s.len() && s[idx] == v;
            if idx >= 1 {
                assert(t[idx - 1] == v);
            }
        }
        if t.contains(v) {
            let idx = choose|idx: int| 0 <= idx < t.len() && t[idx] == v;
            assert(s[idx + 1] == v);
        }
        if v == x {
            assert(s[0] == v);
        }
    }
}

/// How fragmentation grows when one value is appended.
pub proof fn lemma_frag_push(t: Seq<u8>, x: u8)
    ensures
        frag(t.push(x)) == if t.len() == 0 {
            1int
        } else if t.last() == x {
            frag(t)
        } else {
            frag(t) + 1
        },
{
    let s = t.push(x);
    assert(s.drop_last() =~= t);
    if t.len() == 0 {
        assert(frag(s) == 1);
    } else {
        assert(s[s.len() - 2] == t.last());
        assert(s[s.len() - 1] == x);
    }
}

/// Fragmentation is bounded by the length, is positive on non-empty
/// sequences, and equals 1 exactly on the single-run sequences.
pub proof fn lemma_frag_bounds(s: Seq<u8>)
    ensures
        frag(s) <= s.len(),
        s.len() >= 1 ==> frag(s) >= 1,
        frag(s) == 1 <==> (s.len() >= 1 && forall|i: int| 0 <= i < s.len() ==> #[trigger] s[i] == s[0]),
    decreases s.len(),
{
    if s.len() == 0 {
    } else if s.len() == 1 {
    } else {
        let t = s.drop_last();
        lemma_frag_bounds(t);
        assert(t.len() == s.len() - 1);
        assert(forall|i: int| 0 <= i < t.len() ==> #[trigger] t[i] == s[i]);
        if frag(s) == 1 {
            assert(frag(t) == 1);
            assert(s[s.len() - 2] == s[s.len() - 1]);
            assert forall|i: int| 0 <= i < s.len() implies #[trigger] s[i] == s[0] by {
                if i < s.len() - 1 {
                    assert(t[i] == t[0]);
                } else {
                    assert(t[s.len() - 2] == t[0]);
                }
            }
        }
        if s.len() >= 1 && forall|i: int| 0 <= i < s.len() ==> #[trigger] s[i] == s[0] {
            assert(forall|i: int| 0 <= i < t.len() ==> #[trigger] t[i] == t[0]);
            assert(frag(t) == 1);
            assert(s[s.len() - 2] == s[0] && s[s.len() - 1] == s[0]);
            assert(frag(s) == 1);
        }
    }
}

/// Appending to a non-empty complete sequence keeps it complete exactly when
/// the new value continues the last run or has never occurred.
pub proof fn lemma_complete_push(t: Seq<u8>, x: u8)
    requires
        t.len() >= 1,
    ensures
        complete(t.push(x)) <==> (complete(t) && (x == t.last() || !t.contains(x))),
{
    let s = t.push(x);
    let n = t.len() as int;
    if complete(s) {
        assert forall|i: int, k: int, j: int|
            0 <= i <= k <= j < t.len() && t[i] == t[j] implies t[k] == t[i] by {
            assert(s[i] == t[i] && s[k] == t[k] && s[j] == t[j]);
        }
        if t.contains(x) && x != t.last() {
            let i0 = choose|i: int| 0 <= i < t.len() && t[i] == x;
            assert(s[i0] == x && s[n] == x);
            assert(s[n - 1] == t[n - 1]);
            assert(s[n - 1] == s[i0]);
            assert(false);
        }
    }
    if complete(t) && (x == t.last() || !t.contains(x)) {
        assert forall|i: int, k: int, j: int|
            0 <= i <= k <= j < s.len() && s[i] == s[j] implies s[k] == s[i] by {
            if j < n {
                assert(t[i] == s[i] && t[k] == s[k] && t[j] == s[j]);
            } else if k == n {
            } else {
                assert(i < n && k < n);
                assert(s[i] == t[i] && s[k] == t[k]);
                assert(s[j] == x);
                if !t.contains(x) {
                    assert(t[i] == x);
                    assert(false);
                } else {
                    assert(t[i] == t[n - 1]);
                    assert(t[k] == t[i]);
                }
            }
        }
    }
}

/// The mirror of `lemma_complete_push`: prepending to a non-empty complete
/// sequence keeps it complete exactly when the new value continues the first
/// run or never occurs.
pub proof fn lemma_complete_prepend(t: Seq<u8>, x: u8)
    requires
        t.len() >= 1,
    ensures
        complete(seq![x] + t) <==> (complete(t) && (x == t.first() || !t.contains(x))),
{
    let s = seq![x] + t;
    let n = t.len() as int;
    assert(s.len() == n + 1);
    assert(s[0] == x);
    assert(forall|i: int| 1 <= i < s.len() ==> #[trigger] s[i] == t[i - 1]);
    if complete(s) {
        assert forall|i: int, k: int, j: int|
            0 <= i <= k <= j < t.len() && t[i] == t[j] implies t[k] == t[i] by {
            assert(s[i + 1] == t[i] && s[k + 1] == t[k] && s[j + 1] == t[j]);
        }
        if t.contains(x) && x != t.first() {
            let i0 = choose|i: int| 0 <= i < t.len() && t[i] == x;
            assert(s[i0 + 1] == x && s[0] == x);
            assert(s[1] == t[0]);
            assert(s[1] == s[0]);
            assert(false);
        }
    }
    if complete(t) && (x == t.first() || !t.contains(x)) {
        assert forall|i: int, k: int, j: int|
            0 <= i <= k <= j < s.len() && s[i] == s[j] implies s[k] == s[i] by {
            if i >= 1 {
                assert(t[i - 1] == s[i] && t[k - 1] == s[k] && t[j - 1] == s[j]);
            } else if k == 0 {
            } else {
                assert(1 <= k && 1 <= j);
                assert(s[k] == t[k - 1] && s[j] == t[j - 1]);
                assert(s[i] == x);
                if !t.contains(x) {
                    assert(t[j - 1] == x);
                    assert(false);
                } else {
                    assert(t[j - 1] == t[0]);
                    assert(t[k - 1] == t[j - 1]);
                }
            }
        }
    }
}

/// A prefix of a complete sequence is complete.
pub proof fn lemma_complete_subrange(s: Seq<u8>, lo: int, hi: int)
    requires
        complete(s),
        0 <= lo <= hi <= s.len(),
    ensures
        complete(s.subrange(lo, hi)),
{
    let t = s.subrange(lo, hi);
    assert forall|i: int, k: int, j: int|
        0 <= i <= k <= j < t.len() && t[i] == t[j] implies t[k] == t[i] by {
        assert(t[i] == s[lo + i] && t[k] == s[lo + k] && t[j] == s[lo + j]);
    }
}

/// Reversing a sub-range twice restores the sequence.
pub proof fn lemma_reverse_range_involution(s: Seq<u8>, lo: int, hi: int)
    requires
        0 <= lo <= hi <= s.len(),
    ensures
        reverse_range(reverse_range(s, lo, hi), lo, hi) == s,
{
    assert(reverse_range(reverse_range(s, lo, hi), lo, hi) =~= s);
}

/// Reversing a sub-range permutes the sequence: the multiset of values is
/// unchanged.
pub proof fn lemma_reverse_range_multiset(s: Seq<u8>, lo: int, hi: int)
    requires
        0 <= lo <= hi <= s.len(),
    ensures
        reverse_range(s, lo, hi).to_multiset() == s.to_multiset(),
{
    let r = reverse_range(s, lo, hi);
    let a = s.subrange(0, lo);
    let m = s.subrange(lo, hi);
    let z = s.subrange(hi, s.len() as int);
    assert(s =~= a + m + z);
    assert(r =~= a + m.reverse() + z);
    lemma_multiset_commutative(a + m, z);
    lemma_multiset_commutative(a, m);
    lemma_multiset_commutative(a + m.reverse(), z);
    lemma_multiset_commutative(a, m.reverse());
    m.lemma_reverse_to_multiset();
    assert(r.to_multiset() =~= s.to_multiset());
}


/// A stack is complete exactly when its fragmentation equals the number of
/// distinct values present; fragmentation never falls below that number.
pub proof fn lemma_complete_iff_frag_eq_distinct(s: Seq<u8>)
    ensures
        distinct_count(s) <= frag(s),
        complete(s) <==> frag(s) == distinct_count(s),
    decreases s.len(),
{
    broadcast use vstd::set::group_set_axioms;
    broadcast use vstd::seq_lib::seq_to_set_is_finite;

    if s.len() == 0 {
        assert(s.to_set() =~= Set::<u8>::empty());
    } else {
        let t = s.drop_last();
        let x = s.last();
        assert(s =~= t.push(x));
        lemma_complete_iff_frag_eq_distinct(t);
        lemma_frag_push(t, x);
        lemma_contains_push(t, x);
        assert(s.to_set() =~= t.to_set().insert(x));
        assert(t.to_set().finite());
        assert(t.to_set().insert(x).len() == t.to_set().len() + (if t.to_set().contains(x) {
            0int
        } else {
            1
        }));
        assert(t.to_set().contains(x) <==> t.contains(x));
        if t.len() == 0 {
            assert(t.to_set() =~= Set::<u8>::empty());
            assert(complete(s));
            assert(frag(s) == 1);
            assert(distinct_count(s) == 1);
        } else {
            lemma_complete_push(t, x);
            assert(t.contains(t.last())) by {
                assert(t[t.len() - 1] == t.last());
            }
            if x == t.last() {
                assert(frag(s) == frag(t));
                assert(t.contains(x));
                assert(distinct_count(s) == distinct_count(t));
            } else if !t.contains(x) {
                assert(frag(s) == frag(t) + 1);
                assert(distinct_count(s) == distinct_count(t) + 1);
            } else {
                assert(frag(s) == frag(t) + 1);
                assert(distinct_count(s) == distinct_count(t));
                assert(!complete(s));
            }
        }
    }
}

/// Some joining move exists, at either edge.
pub open spec fn has_join(p: Seq<u8>) -> bool {
    has_left_join(p) || has_right_join(p)
}

/// Termination measure of the solve loop: every applied move strictly
/// decreases it.
pub open spec fn solve_measure(p: Seq<u8>) -> int {
    2 * frag(p) + if has_join(p) {
        0int
    } else {
        1int
    }
}

/// Fragmentation decomposed at the front instead of the back.
proof fn lemma_frag_front(a: Seq<u8>)
    requires
        a.len() >= 2,
    ensures
        frag(a) == frag(a.drop_first()) + if a[0] == a[1] {
            0int
        } else {
            1int
        },
    decreases a.len(),
{
    if a.len() == 2 {
        assert(a.drop_last().len() == 1);
        assert(a.drop_first().len() == 1);
        assert(frag(a.drop_last()) == 1);
        assert(frag(a.drop_first()) == 1);
        assert(frag(a) == frag(a.drop_last()) + if a[0] == a[1] {
            0int
        } else {
            1int
        });
    } else {
        let d = a.drop_last();
        let e = a.drop_first();
        lemma_frag_front(d);
        assert(d[0] == a[0] && d[1] == a[1]);
        assert(d.drop_first() =~= e.drop_last());
        assert(e[a.len() - 3] == a[a.len() - 2]);
        assert(e[a.len() - 2] == a[a.len() - 1]);
        assert(frag(a) == frag(d) + if a[a.len() - 2] == a[a.len() - 1] {
            0int
        } else {
            1int
        });
        assert(frag(e) == frag(e.drop_last()) + if e[e.len() - 2] == e[e.len() - 1] {
            0int
        } else {
            1int
        });
        assert(frag(e.drop_last()) == frag(d.drop_first()));
    }
}

/// Fragmentation of a concatenation: the parts' fragmentations, minus one
/// when the runs join at the seam.
pub proof fn lemma_frag_concat(a: Seq<u8>, b: Seq<u8>)
    requires
        a.len() >= 1,
        b.len() >= 1,
    ensures
        frag(a + b) == frag(a) + frag(b) - if a.last() == b.first() {
            1int
        } else {
            0int
        },
    decreases b.len(),
{
    if b.len() == 1 {
        assert(a + b =~= a.push(b[0]));
        lemma_frag_push(a, b[0]);
    } else {
        let c = b.drop_last();
        let x = b.last();
        assert(a + b =~= (a + c).push(x));
        assert(b =~= c.push(x));
        lemma_frag_concat(a, c);
        lemma_frag_push(a + c, x);
        lemma_frag_push(c, x);
        assert((a + c).last() == c.last());
        assert(c.first() == b.first());
    }
}

/// Reversal leaves fragmentation unchanged.
pub proof fn lemma_frag_reverse(a: Seq<u8>)
    ensures
        frag(a.reverse()) == frag(a),
    decreases a.len(),
{
    if a.len() <= 1 {
        assert(a.reverse() =~= a);
    } else {
        let r = a.reverse();
        let d = a.drop_first();
        assert(r.drop_last() =~= d.reverse());
        assert(r[a.len() - 2] == a[1]);
        assert(r[a.len() - 1] == a[0]);
        lemma_frag_reverse(d);
        lemma_frag_front(a);
    }
}

/// Applying the flip of a minimal left joining move removes exactly one run
/// boundary.
pub proof fn lemma_single_left_flip(p: Seq<u8>, i: int)
    requires
        left_join_at(p, i),
        forall|k: int| 0 <= k < i ==> !left_join_at(p, k),
    ensures
        frag(reverse_range(p, 0, i)) == frag(p) - 1,
{
    let n = p.len() as int;
    let j0 = choose|j: int| 0 <= j < i && #[trigger] p[j] != p[0];
    assert(i >= 2);
    assert(p[i - 1] != p[0]) by {
        if p[i - 1] == p[0] {
            assert(j0 != i - 1);
            assert(left_join_at(p, i - 1));
        }
    }
    let pre = p.subrange(0, i);
    let suf = p.subrange(i, n);
    assert(p =~= pre + suf);
    let new = reverse_range(p, 0, i);
    assert(new =~= pre.reverse() + suf);
    lemma_frag_concat(pre, suf);
    lemma_frag_concat(pre.reverse(), suf);
    lemma_frag_reverse(pre);
    assert(pre.last() == p[i - 1] && suf.first() == p[i]);
    assert(pre.reverse().last() == pre[0] && pre[0] == p[0]);
}

/// Applying the flip of a maximal right joining move removes exactly one run
/// boundary.
pub proof fn lemma_single_right_flip(p: Seq<u8>, i: int)
    requires
        right_join_at(p, i),
        forall|k: int| i < k < p.len() ==> !right_join_at(p, k),
    ensures
        frag(reverse_range(p, i + 1, p.len() as int)) == frag(p) - 1,
{
    let n = p.len() as int;
    let j0 = choose|j: int| i < j < n && #[trigger] p[j] != p[n - 1];
    assert(i <= n - 3) by {
        if i == n - 2 {
            assert(p[n - 1] != p[n - 1]);
        }
    }
    assert(p[i + 1] != p[n - 1]) by {
        if p[i + 1] == p[n - 1] {
            assert(j0 != i + 1);
            assert(right_join_at(p, i + 1));
        }
    }
    let pre = p.subrange(0, i + 1);
    let suf = p.subrange(i + 1, n);
    assert(p =~= pre + suf);
    let new = reverse_range(p, i + 1, n);
    assert(new =~= pre + suf.reverse());
    lemma_frag_concat(pre, suf);
    lemma_frag_concat(pre, suf.reverse());
    lemma_frag_reverse(suf);
    assert(pre.last() == p[i] && p[i] == p[n - 1]);
    assert(suf.first() == p[i + 1]);
    assert(suf.reverse().first() == suf.last() && suf.last() == p[n - 1]);
}

/// Applying the flip of a forward double-move boundary never adds a run
/// boundary, and leaves a joining move available at an edge.
pub proof fn lemma_double_flip(p: Seq<u8>, i: int)
    requires
        fwd_hit(p, i),
    ensures
        frag(reverse_range(p, i, p.len() as int)) <= frag(p),
        has_join(reverse_range(p, i, p.len() as int)),
{
    let n = p.len() as int;
    let j0 = choose|j: int| 0 <= j < i && #[trigger] p[j] == p[i];
    assert(j0 != i - 1);
    let pre = p.subrange(0, i);
    let suf = p.subrange(i, n);
    assert(p =~= pre + suf);
    let new = reverse_range(p, i, n);
    assert(new =~= pre + suf.reverse());
    lemma_frag_concat(pre, suf);
    lemma_frag_concat(pre, suf.reverse());
    lemma_frag_reverse(suf);
    assert(pre.last() == p[i - 1] && suf.first() == p[i]);
    assert(new[n - 1] == p[i]);
    assert(new[i - 1] == p[i - 1]);
    if j0 == 0 {
        assert(new[0] == p[i]);
        assert(left_join_at(new, n - 1)) by {
            assert(new[i - 1] != new[0]);
        }
    } else {
        assert(new[j0] == p[j0]);
        assert(right_join_at(new, j0)) by {
            assert(j0 < i - 1);
            assert(new[i - 1] != new[n - 1]);
        }
    }
}

} // verus!
