//! The puzzle state: a fixed-capacity stack of slice-type values, the
//! evaluation of its fragmentation and completeness, the move-finding scans,
//! the flip primitive, and the solver that drives a stack to completion.

use crate::model::{
    back_hit, bit_set, complete, frag, fwd_hit, has_back_hit, has_join, has_left_join,
    has_right_join, left_join_at, lemma_bit_set_empty, lemma_bit_set_or, lemma_complete_prepend,
    lemma_complete_push, lemma_complete_subrange, lemma_contains_prepend, lemma_contains_push,
    lemma_double_flip, lemma_frag_bounds, lemma_frag_push, lemma_reverse_range_multiset,
    lemma_single_left_flip, lemma_single_right_flip, reverse_range, right_join_at, solve_measure,
};
use crate::prng::{lsfw_iter, prng_galois_lsfw_int_minmax, scale_in_range, PrngCtxGaloisLsfw};
use vstd::prelude::*;

verus! {

/// Fixed capacity of every stack.
pub const MAX_SLICES: usize = 16;

/// Abstract state of a stack: the active values and the number of slice
/// types it was configured with.
pub ghost struct StackView {
    pub slices: Seq<u8>,
    pub type_count: u8,
}

/// Rejected configuration: too many slices requested, or no slice types.
#[derive(Debug, PartialEq, Eq)]
pub struct ConfigurationError;

/// A bounded stack of colored slices. Only the first `count` entries of the
/// backing storage are meaningful.
#[derive(Clone)]
pub struct SliceStack {
    count: usize,
    type_count: u8,
    slices: Vec<u8>,
}

impl View for SliceStack {
    type V = StackView;

    closed spec fn view(&self) -> StackView {
        StackView {
            slices: self.slices@.subrange(0, self.count as int),
            type_count: self.type_count,
        }
    }
}

impl SliceStack {
    /// Representation invariant of the backing storage.
    pub closed spec fn inv(&self) -> bool {
        self.slices@.len() == MAX_SLICES && self.count <= MAX_SLICES && self.type_count <= 32
    }

    /// A well-formed stack: bounded, with every active value below the
    /// configured number of slice types.
    pub open spec fn wf(&self) -> bool {
        self.inv() && self@.slices.len() <= MAX_SLICES && self@.type_count <= 32 && forall|i: int|
            0 <= i < self@.slices.len() ==> self@.slices[i] < self@.type_count
    }

    /// An empty stack with full backing capacity.
    pub fn new() -> (r: SliceStack)
        ensures
            r.wf(),
            r@.slices.len() == 0,
            r@.type_count == 0,
    {
        let mut slices: Vec<u8> = Vec::new();
        let mut i: usize = 0;
        while i < MAX_SLICES
            invariant
                slices@.len() == i,
                i <= MAX_SLICES,
            decreases MAX_SLICES - i,
        {
            slices.push(0);
            i += 1;
        }
        let r = SliceStack { count: 0, type_count: 0, slices };
        proof {
            assert(r@.slices =~= Seq::<u8>::empty());
        }
        r
    }

    /// Number of active slices.
    pub fn count(&self) -> (r: usize)
        requires
            self.wf(),
        ensures
            r == self@.slices.len(),
    {
        self.count
    }

    /// Number of slice types the stack was configured with.
    pub fn type_count(&self) -> (r: u8)
        ensures
            r == self@.type_count,
    {
        self.type_count
    }

    /// The active value at `index`.
    pub fn slice_at(&self, index: usize) -> (r: u8)
        requires
            self.wf(),
            index < self@.slices.len(),
        ensures
            r == self@.slices[index as int],
    {
        self.slices[index]
    }

    /// Overwrite one active slot.
    pub fn set_slice(&mut self, index: usize, value: u8)
        requires
            old(self).wf(),
            index < old(self)@.slices.len(),
            value < old(self)@.type_count,
        ensures
            final(self).wf(),
            final(self)@.type_count == old(self)@.type_count,
            final(self)@.slices == old(self)@.slices.update(index as int, value),
    {
        self.slices[index] = value;
        proof {
            assert(self@.slices =~= old(self)@.slices.update(index as int, value));
        }
    }

    /// Configure the stack with `count` active slices of `type_count` slice
    /// types and fill it with draws from the generator. Fails before any
    /// mutation when the configuration is out of bounds.
    pub fn init(&mut self, count: usize, type_count: u8, rng: &mut PrngCtxGaloisLsfw) -> (r: Result<
        (),
        ConfigurationError,
    >)
        requires
            old(self).wf(),
            type_count <= 32,
        ensures
            final(self).wf(),
            (count > MAX_SLICES || type_count < 1) <==> r is Err,
            r is Err ==> *final(self) == *old(self) && *final(rng) == *old(rng),
            r is Ok ==> final(self)@.slices.len() == count && final(self)@.type_count == type_count
                && final(rng).value == lsfw_iter(old(rng).value, count as nat) && forall|i: int|
                0 <= i < count ==> final(self)@.slices[i] as int == scale_in_range(
                    lsfw_iter(old(rng).value, (i + 1) as nat),
                    0,
                    type_count - 1,
                ),
    {
        if count > MAX_SLICES || type_count < 1 {
            return Err(ConfigurationError);
        }
        self.count = count;
        self.type_count = type_count;
        let mut i: usize = 0;
        while i < count
            invariant
                i <= count,
                count <= MAX_SLICES,
                1 <= type_count <= 32,
                self.count == count,
                self.type_count == type_count,
                self.inv(),
                rng.value == lsfw_iter(old(rng).value, i as nat),
                forall|k: int|
                    0 <= k < i ==> #[trigger] self.slices@[k] < type_count && self.slices@[k] as int
                        == scale_in_range(
                        lsfw_iter(old(rng).value, (k + 1) as nat),
                        0,
                        type_count - 1,
                    ),
            decreases count - i,
        {
            let v = prng_galois_lsfw_int_minmax(rng, 0, (type_count as i32) - 1);
            self.slices[i] = v as u8;
            i += 1;
        }
        proof {
            assert(forall|k: int|
                0 <= k < count ==> self@.slices[k] == self.slices@.subrange(0, count as int)[k]);
        }
        Ok(())
    }

    /// Reverse the active positions `[lo, hi)` in place.
    fn reverse_segment(&mut self, lo: usize, hi: usize)
        requires
            old(self).wf(),
            lo <= hi <= old(self)@.slices.len(),
        ensures
            final(self).wf(),
            final(self)@.type_count == old(self)@.type_count,
            final(self)@.slices == reverse_range(old(self)@.slices, lo as int, hi as int),
            final(self)@.slices.to_multiset() == old(self)@.slices.to_multiset(),
    {
        let mut a = lo;
        let mut b = hi;
        while b >= a + 2
            invariant
                lo <= a <= b <= hi,
                hi <= old(self)@.slices.len(),
                a - lo == hi - b,
                self.inv(),
                self.count == old(self).count,
                self.type_count == old(self).type_count,
                old(self).wf(),
                forall|m: int| a <= m < b ==> self.slices@[m] == old(self).slices@[m],
                forall|m: int|
                    lo <= m < a ==> #[trigger] self.slices@[m] == old(self).slices@[lo + hi - 1
                        - m],
                forall|m: int|
                    b <= m < hi ==> #[trigger] self.slices@[m] == old(self).slices@[lo + hi - 1
                        - m],
                forall|m: int|
                    0 <= m < old(self).slices@.len() && !(lo <= m < hi)
                        ==> #[trigger] self.slices@[m] == old(self).slices@[m],
            decreases b - a,
        {
            b -= 1;
            let x = self.slices[a];
            let y = self.slices[b];
            self.slices[a] = y;
            self.slices[b] = x;
            a += 1;
        }
        proof {
            assert(self@.slices =~= reverse_range(
                old(self)@.slices,
                lo as int,
                hi as int,
            ));
            lemma_reverse_range_multiset(old(self)@.slices, lo as int, hi as int);
            assert forall|i: int| 0 <= i < self@.slices.len() implies #[trigger] self@.slices[i]
                < self@.type_count by {
                if lo <= i < hi {
                    assert(self@.slices[i] == old(self)@.slices[lo + hi - 1 - i]);
                }
            }
        }
    }

    /// Reverse a sub-range of the stack: with `direction > 0` the suffix
    /// starting at `index`, otherwise the prefix ending at `index`
    /// (inclusive). The contents are permuted; count and type count stay.
    pub fn flip(&mut self, index: i32, direction: i32)
        requires
            old(self).wf(),
            0 <= index < old(self)@.slices.len(),
        ensures
            final(self).wf(),
            final(self)@.type_count == old(self)@.type_count,
            final(self)@.slices.len() == old(self)@.slices.len(),
            direction > 0 ==> final(self)@.slices == reverse_range(
                old(self)@.slices,
                index as int,
                old(self)@.slices.len() as int,
            ),
            direction <= 0 ==> final(self)@.slices == reverse_range(
                old(self)@.slices,
                0,
                index as int + 1,
            ),
            final(self)@.slices.to_multiset() == old(self)@.slices.to_multiset(),
    {
        if direction > 0 {
            let hi = self.count;
            self.reverse_segment(index as usize, hi);
        } else {
            self.reverse_segment(0, index as usize + 1);
        }
    }

    /// Kept beside `flip` for interface compatibility: the single
    /// bounds-checked reversal serves as the one implementation.
    pub fn flip_unsafe(&mut self, index: i32, direction: i32)
        requires
            old(self).wf(),
            0 <= index < old(self)@.slices.len(),
        ensures
            final(self).wf(),
            final(self)@.type_count == old(self)@.type_count,
            final(self)@.slices.len() == old(self)@.slices.len(),
            direction > 0 ==> final(self)@.slices == reverse_range(
                old(self)@.slices,
                index as int,
                old(self)@.slices.len() as int,
            ),
            direction <= 0 ==> final(self)@.slices == reverse_range(
                old(self)@.slices,
                0,
                index as int + 1,
            ),
            final(self)@.slices.to_multiset() == old(self)@.slices.to_multiset(),
    {
        self.flip(index, direction)
    }

    /// Kept beside `flip` for interface compatibility: the single
    /// bounds-checked reversal serves as the one implementation.
    pub fn flip_rsslice(&mut self, index: i32, direction: i32)
        requires
            old(self).wf(),
            0 <= index < old(self)@.slices.len(),
        ensures
            final(self).wf(),
            final(self)@.type_count == old(self)@.type_count,
            final(self)@.slices.len() == old(self)@.slices.len(),
            direction > 0 ==> final(self)@.slices == reverse_range(
                old(self)@.slices,
                index as int,
                old(self)@.slices.len() as int,
            ),
            direction <= 0 ==> final(self)@.slices == reverse_range(
                old(self)@.slices,
                0,
                index as int + 1,
            ),
            final(self)@.slices.to_multiset() == old(self)@.slices.to_multiset(),
    {
        self.flip(index, direction)
    }

    /// Number of maximal same-type runs among the active slices; 0 when the
    /// stack is empty.
    pub fn fragmentation(&self) -> (r: i32)
        requires
            self.wf(),
        ensures
            r as int == frag(self@.slices),
    {
        let mut last: u8 = u8::MAX;
        let mut fr: i32 = 0;
        let mut i: usize = 0;
        while i < self.count
            invariant
                self.wf(),
                i <= self.count,
                self.count == self@.slices.len(),
                fr as int == frag(self@.slices.subrange(0, i as int)),
                0 <= fr <= i,
                i == 0 ==> last == u8::MAX,
                i >= 1 ==> last == self@.slices[i - 1],
            decreases self.count - i,
        {
            let t = self.slices[i];
            proof {
                let prefix = self@.slices.subrange(0, i as int);
                lemma_frag_push(prefix, self@.slices[i as int]);
                assert(self@.slices.subrange(0, i as int + 1) =~= prefix.push(
                    self@.slices[i as int],
                ));
            }
            if last != t {
                fr += 1;
            }
            last = t;
            i += 1;
        }
        proof {
            assert(self@.slices.subrange(0, self.count as int) =~= self@.slices);
        }
        fr
    }

    /// Fragmentation computed from adjacent pairs alone; agrees with
    /// `fragmentation` on every non-empty stack and yields 1 on an empty one.
    pub fn fragmentation2(&self) -> (r: i32)
        requires
            self.wf(),
        ensures
            self@.slices.len() >= 1 ==> r as int == frag(self@.slices),
            self@.slices.len() == 0 ==> r == 1,
    {
        let mut fr: i32 = 1;
        if self.count == 0 {
            return fr;
        }
        let mut i: usize = 1;
        while i < self.count
            invariant
                self.wf(),
                1 <= i <= self.count,
                self.count == self@.slices.len(),
                fr as int == frag(self@.slices.subrange(0, i as int)),
                0 <= fr <= i,
            decreases self.count - i,
        {
            let a = self.slices[i - 1];
            let b = self.slices[i];
            proof {
                let prefix = self@.slices.subrange(0, i as int);
                lemma_frag_push(prefix, self@.slices[i as int]);
                assert(self@.slices.subrange(0, i as int + 1) =~= prefix.push(
                    self@.slices[i as int],
                ));
            }
            if a != b {
                fr += 1;
            }
            i += 1;
        }
        proof {
            assert(self@.slices.subrange(0, self.count as int) =~= self@.slices);
        }
        fr
    }

    /// Whether every slice type present occupies one contiguous run.
    pub fn iscomplete(&self) -> (r: bool)
        requires
            self.wf(),
        ensures
            r == complete(self@.slices),
    {
        let mut used: u32 = 0;
        let mut last: u8 = u8::MAX;
        let mut i: usize = 0;
        proof {
            lemma_bit_set_empty();
            assert(self@.slices.subrange(0, 0) =~= Seq::<u8>::empty());
            assert(forall|v: u8| !self@.slices.subrange(0, 0).contains(v));
        }
        while i < self.count
            invariant
                self.wf(),
                i <= self.count,
                self.count == self@.slices.len(),
                complete(self@.slices.subrange(0, i as int)),
                forall|v: u8|
                    v < 32 ==> (#[trigger] bit_set(used, v) <==> self@.slices.subrange(
                        0,
                        i as int,
                    ).contains(v)),
                i >= 1 ==> last == self@.slices[i - 1],
            decreases self.count - i,
        {
            let t = self.slices[i];
            let ghost prefix = self@.slices.subrange(0, i as int);
            proof {
                assert(t == self@.slices[i as int]);
                assert(t < 32);
                assert(self@.slices.subrange(0, i as int + 1) =~= prefix.push(
                    self@.slices[i as int],
                ));
                lemma_contains_push(prefix, t);
            }
            let flag = 1u32 << (t as u32);
            if (used & flag != 0) && (last != t) {
                proof {
                    assert(bit_set(used, t));
                    assert(prefix.contains(t));
                    assert(i >= 1);
                    lemma_complete_push(prefix, t);
                    assert(t != prefix.last());
                    assert(!complete(self@.slices.subrange(0, i as int + 1)));
                    if complete(self@.slices) {
                        lemma_complete_subrange(self@.slices, 0, i as int + 1);
                        assert(false);
                    }
                }
                return false;
            }
            proof {
                lemma_bit_set_or(used, t);
                if i == 0 {
                    assert(complete(prefix.push(t)));
                } else if used & flag == 0 {
                    assert(!bit_set(used, t));
                    assert(!prefix.contains(t));
                    lemma_complete_push(prefix, t);
                } else {
                    assert(t == last && last == prefix.last());
                    lemma_complete_push(prefix, t);
                }
            }
            used = used | flag;
            last = t;
            i += 1;
        }
        proof {
            assert(self@.slices.subrange(0, self.count as int) =~= self@.slices);
        }
        true
    }

    /// Completeness derived from fragmentation against the configured type
    /// count. This shortcut is a faithful completeness test only when every
    /// configured slice type actually occurs in the stack.
    pub fn iscomplete2(&self) -> (r: bool)
        requires
            self.wf(),
        ensures
            r == ((if self@.slices.len() == 0 {
                1int
            } else {
                frag(self@.slices)
            }) <= self@.type_count as int),
    {
        let f = self.fragmentation2();
        proof {
            lemma_frag_bounds(self@.slices);
        }
        f - (self.type_count as i32) <= 0
    }

    /// Scan for a single joining move: an element sharing one edge's type,
    /// separated from that edge by at least one differing element. The left
    /// edge is tried first, scanning outward; then the right edge, scanning
    /// inward. On success the returned index names the joinable element and
    /// the direction the flip boundary must move; -1 means no such move
    /// exists and the direction is left untouched.
    pub fn find_single_joining_move(&self, dir: &mut i32) -> (res: i32)
        requires
            self.wf(),
            self@.slices.len() >= 1,
        ensures
            has_left_join(self@.slices) ==> *final(dir) == -1 && left_join_at(
                self@.slices,
                res as int,
            ) && forall|k: int| 0 <= k < res ==> !left_join_at(self@.slices, k),
            !has_left_join(self@.slices) && has_right_join(self@.slices) ==> *final(dir) == 1
                && right_join_at(self@.slices, res as int) && forall|k: int|
                res < k < self@.slices.len() ==> !right_join_at(self@.slices, k),
            !has_left_join(self@.slices) && !has_right_join(self@.slices) ==> res == -1 && *final(dir) == *old(dir),
            res != -1 ==> 0 <= res + *final(dir) < self@.slices.len(),
    {
        let n = self.count;
        let outer = self.slices[0];
        let mut found = false;
        let mut i: usize = 0;
        while i < n
            invariant
                self.wf(),
                n == self@.slices.len(),
                1 <= n,
                i <= n,
                outer == self@.slices[0],
                found <==> exists|j: int| 0 <= j < i && #[trigger] self@.slices[j] != outer,
                forall|k: int| 0 <= k < i ==> !left_join_at(self@.slices, k),
                *dir == *old(dir),
            decreases n - i,
        {
            let t = self.slices[i];
            let is_diff = t != outer;
            if !is_diff && found {
                *dir = -1;
                proof {
                    assert(left_join_at(self@.slices, i as int));
                    let j = choose|j: int| 0 <= j < i && #[trigger] self@.slices[j] != outer;
                    assert(i >= 1);
                }
                return i as i32;
            }
            let new_found = found || is_diff;
            proof {
                if is_diff {
                    assert(self@.slices[i as int] != outer);
                }
                if !new_found {
                    assert forall|j: int| 0 <= j < i + 1 implies #[trigger] self@.slices[j]
                        == outer by {
                        if j < i {
                            if self@.slices[j] != outer {
                                assert(exists|jj: int|
                                    0 <= jj < i && #[trigger] self@.slices[jj] != outer);
                            }
                        }
                    }
                }
            }
            found = new_found;
            i += 1;
        }
        proof {
            assert(!has_left_join(self@.slices)) by {
                if has_left_join(self@.slices) {
                    let w = choose|w: int| left_join_at(self@.slices, w);
                    assert(!left_join_at(self@.slices, w));
                }
            }
        }
        let outer2 = self.slices[n - 1];
        let mut found2 = false;
        let mut i2: usize = n - 1;
        while i2 >= 1
            invariant
                self.wf(),
                n == self@.slices.len(),
                1 <= n,
                i2 <= n - 1,
                outer2 == self@.slices[n - 1],
                found2 <==> exists|j: int| i2 < j < n && #[trigger] self@.slices[j] != outer2,
                forall|k: int| i2 < k < n ==> !right_join_at(self@.slices, k),
                !has_left_join(self@.slices),
                *dir == *old(dir),
            decreases i2,
        {
            let t = self.slices[i2];
            let is_diff = t != outer2;
            if !is_diff && found2 {
                *dir = 1;
                proof {
                    assert(right_join_at(self@.slices, i2 as int));
                    let j = choose|j: int| i2 < j < n && #[trigger] self@.slices[j] != outer2;
                    assert(i2 + 1 < n);
                }
                return i2 as i32;
            }
            let new_found = found2 || is_diff;
            proof {
                if is_diff {
                    assert(self@.slices[i2 as int] != outer2);
                }
                if !new_found {
                    assert forall|j: int| i2 - 1 < j < n implies #[trigger] self@.slices[j]
                        == outer2 by {
                        if j > i2 {
                            if self@.slices[j] != outer2 {
                                assert(exists|jj: int|
                                    i2 < jj < n && #[trigger] self@.slices[jj] != outer2);
                            }
                        }
                    }
                }
            }
            found2 = new_found;
            i2 -= 1;
        }
        proof {
            assert(!has_right_join(self@.slices)) by {
                if has_right_join(self@.slices) {
                    let w = choose|w: int| right_join_at(self@.slices, w);
                    assert(!right_join_at(self@.slices, w));
                }
            }
        }
        -1
    }

    /// Scan for the fallback double move: the first position whose type
    /// occurred before but does not continue its run. With `search_dir <= 0`
    /// the stack is walked from the left and the boundary is reported one
    /// step before the repeated element with direction +1; otherwise the
    /// walk is mirrored from the right. The forward walk always finds a
    /// boundary on an incomplete stack; the backward walk needs one to exist
    /// on its side, since it never examines the leftmost slice.
    pub fn find_first_double_move(&self, search_dir: i32, dir: &mut i32) -> (res: i32)
        requires
            self.wf(),
            !complete(self@.slices),
            search_dir > 0 ==> has_back_hit(self@.slices),
        ensures
            search_dir <= 0 ==> *final(dir) == 1 && fwd_hit(self@.slices, res as int + 1)
                && forall|k: int| 1 <= k < res + 1 ==> !fwd_hit(self@.slices, k),
            search_dir > 0 ==> *final(dir) == -1 && back_hit(self@.slices, res as int - 1)
                && forall|k: int|
                res - 1 < k < self@.slices.len() ==> !back_hit(self@.slices, k),
            0 <= res + *final(dir) < self@.slices.len(),
    {
        let n = self.count;
        proof {
            assert(n >= 2) by {
                if self@.slices.len() < 2 {
                    assert(complete(self@.slices));
                }
            }
        }
        let mut used: u32 = 0;
        let mut last: u8 = u8::MAX;
        if search_dir <= 0 {
            let mut i: usize = 0;
            proof {
                lemma_bit_set_empty();
                assert(self@.slices.subrange(0, 0) =~= Seq::<u8>::empty());
                assert(forall|v: u8| !self@.slices.subrange(0, 0).contains(v));
            }
            while i < n
                invariant
                    self.wf(),
                    n == self@.slices.len(),
                    2 <= n,
                    i <= n,
                    complete(self@.slices.subrange(0, i as int)),
                    forall|v: u8|
                        v < 32 ==> (#[trigger] bit_set(used, v) <==> self@.slices.subrange(
                            0,
                            i as int,
                        ).contains(v)),
                    i >= 1 ==> last == self@.slices[i - 1],
                    forall|k: int| 1 <= k < i ==> !fwd_hit(self@.slices, k),
                    search_dir <= 0,
                decreases n - i,
            {
                let t = self.slices[i];
                let ghost prefix = self@.slices.subrange(0, i as int);
                proof {
                    assert(t == self@.slices[i as int]);
                    assert(t < 32);
                    assert(self@.slices.subrange(0, i as int + 1) =~= prefix.push(t));
                    lemma_contains_push(prefix, t);
                }
                let flag = 1u32 << (t as u32);
                if used & flag != 0 {
                    if t != last {
                        *dir = 1;
                        proof {
                            assert(bit_set(used, t));
                            assert(prefix.contains(t));
                            let j = choose|j: int| 0 <= j < prefix.len() && prefix[j] == t;
                            assert(self@.slices[j] == t);
                            assert(i >= 1);
                            assert(fwd_hit(self@.slices, i as int));
                        }
                        return (i as i32) - 1;
                    }
                    proof {
                        assert(bit_set(used, t));
                        assert(prefix.contains(t));
                        assert(i >= 1 && t == prefix.last());
                        lemma_complete_push(prefix, t);
                        assert(!fwd_hit(self@.slices, i as int));
                    }
                } else {
                    proof {
                        assert(!bit_set(used, t));
                        assert(!prefix.contains(t));
                        if i == 0 {
                            assert(complete(prefix.push(t)));
                        } else {
                            lemma_complete_push(prefix, t);
                        }
                        assert(!fwd_hit(self@.slices, i as int)) by {
                            if fwd_hit(self@.slices, i as int) {
                                let j = choose|j: int|
                                    0 <= j < i && #[trigger] self@.slices[j] == self@.slices[
                                    i as int];
                                assert(prefix[j] == t);
                                assert(prefix.contains(t));
                            }
                        }
                    }
                    last = t;
                }
                proof {
                    lemma_bit_set_or(used, t);
                }
                used = used | flag;
                i += 1;
            }
            proof {
                assert(self@.slices.subrange(0, n as int) =~= self@.slices);
                assert(false);
            }
            -1
        } else {
            let mut i: usize = n - 1;
            proof {
                lemma_bit_set_empty();
                assert(self@.slices.subrange(n as int, n as int) =~= Seq::<u8>::empty());
                assert(forall|v: u8| !self@.slices.subrange(n as int, n as int).contains(v));
            }
            while i >= 1
                invariant
                    self.wf(),
                    n == self@.slices.len(),
                    2 <= n,
                    i <= n - 1,
                    has_back_hit(self@.slices),
                    complete(self@.slices.subrange(i as int + 1, n as int)),
                    forall|v: u8|
                        v < 32 ==> (#[trigger] bit_set(used, v) <==> self@.slices.subrange(
                            i as int + 1,
                            n as int,
                        ).contains(v)),
                    i <= n - 2 ==> last == self@.slices[i + 1],
                    forall|k: int| i < k < n ==> !back_hit(self@.slices, k),
                    search_dir > 0,
                decreases i,
            {
                let t = self.slices[i];
                let ghost suffix = self@.slices.subrange(i as int + 1, n as int);
                proof {
                    assert(t == self@.slices[i as int]);
                    assert(t < 32);
                    assert(self@.slices.subrange(i as int, n as int) =~= seq![t] + suffix);
                    lemma_contains_prepend(suffix, t);
                }
                let flag = 1u32 << (t as u32);
                if used & flag != 0 {
                    if t != last {
                        *dir = -1;
                        proof {
                            assert(bit_set(used, t));
                            assert(suffix.contains(t));
                            let j = choose|j: int| 0 <= j < suffix.len() && suffix[j] == t;
                            assert(self@.slices[i + 1 + j] == t);
                            assert(i <= n - 2);
                            assert(back_hit(self@.slices, i as int));
                        }
                        return (i as i32) + 1;
                    }
                    proof {
                        assert(bit_set(used, t));
                        assert(suffix.contains(t));
                        assert(i <= n - 2 && t == suffix.first());
                        lemma_complete_prepend(suffix, t);
                        assert(!back_hit(self@.slices, i as int));
                    }
                } else {
                    proof {
                        assert(!bit_set(used, t));
                        assert(!suffix.contains(t));
                        if i == n - 1 {
                            assert((seq![t] + suffix).len() == 1);
                            assert(complete(seq![t] + suffix));
                        } else {
                            lemma_complete_prepend(suffix, t);
                        }
                        assert(!back_hit(self@.slices, i as int)) by {
                            if back_hit(self@.slices, i as int) {
                                let j = choose|j: int|
                                    i < j < n && #[trigger] self@.slices[j] == self@.slices[
                                    i as int];
                                assert(suffix[j - i - 1] == t);
                                assert(suffix.contains(t));
                            }
                        }
                    }
                    last = t;
                }
                proof {
                    lemma_bit_set_or(used, t);
                }
                used = used | flag;
                i -= 1;
            }
            proof {
                assert(!has_back_hit(self@.slices)) by {
                    if has_back_hit(self@.slices) {
                        let w = choose|w: int| back_hit(self@.slices, w);
                        assert(!back_hit(self@.slices, w));
                    }
                }
                assert(false);
            }
            -1
        }
    }
}

impl SliceStack {
    /// Drive the stack to completion: while it is not complete, pick a
    /// single joining move, or the forward double move when none exists,
    /// adjust the reported index one step in the direction of travel, and
    /// flip. Returns the number of flips applied, at most twice the number
    /// of active slices; the contents end as a permutation of what they
    /// were.
    pub fn solve(&mut self) -> (moves: u32)
        requires
            old(self).wf(),
        ensures
            final(self).wf(),
            complete(final(self)@.slices),
            final(self)@.slices.len() == old(self)@.slices.len(),
            final(self)@.type_count == old(self)@.type_count,
            final(self)@.slices.to_multiset() == old(self)@.slices.to_multiset(),
            moves as int <= 2 * old(self)@.slices.len(),
    {
        let mut moves: u32 = 0;
        while !self.iscomplete()
            invariant
                self.wf(),
                self@.slices.len() == old(self)@.slices.len(),
                self@.type_count == old(self)@.type_count,
                self@.slices.to_multiset() == old(self)@.slices.to_multiset(),
                moves as int + solve_measure(self@.slices) <= solve_measure(old(self)@.slices),
            decreases solve_measure(self@.slices),
        {
            let ghost p = self@.slices;
            let ghost n = p.len() as int;
            proof {
                lemma_frag_bounds(old(self)@.slices);
                lemma_frag_bounds(p);
                assert(n >= 2) by {
                    if p.len() < 2 {
                        assert(complete(p));
                    }
                }
            }
            let mut direction: i32 = 0;
            let mut index = self.find_single_joining_move(&mut direction);
            if index == -1 {
                proof {
                    assert(!has_left_join(p)) by {
                        if has_left_join(p) {
                            assert(left_join_at(p, -1));
                        }
                    }
                    assert(!has_right_join(p)) by {
                        if has_right_join(p) {
                            assert(right_join_at(p, -1));
                        }
                    }
                }
                index = self.find_first_double_move(0, &mut direction);
                proof {
                    lemma_double_flip(p, index as int + 1);
                }
            } else {
                proof {
                    if has_left_join(p) {
                        lemma_single_left_flip(p, index as int);
                    } else {
                        lemma_single_right_flip(p, index as int);
                    }
                }
            }
            let ghost was_single = direction == -1 || (direction == 1 && has_join(p));
            index += direction;
            self.flip(index, direction);
            proof {
                if was_single {
                    assert(frag(self@.slices) == frag(p) - 1);
                    assert(has_join(p));
                    assert(solve_measure(self@.slices) <= 2 * frag(p) - 1);
                    assert(solve_measure(p) == 2 * frag(p));
                } else {
                    assert(frag(self@.slices) <= frag(p));
                    assert(has_join(self@.slices));
                    assert(solve_measure(self@.slices) == 2 * frag(self@.slices));
                    assert(!has_join(p));
                    assert(solve_measure(p) == 2 * frag(p) + 1);
                }
                assert(solve_measure(self@.slices) < solve_measure(p));
                lemma_frag_bounds(self@.slices);
            }
            moves += 1;
        }
        proof {
            lemma_frag_bounds(old(self)@.slices);
            lemma_frag_bounds(self@.slices);
        }
        moves
    }
}

/// Solve every stack of a batch in order; the instances are independent.
pub fn solve_all_stacks(stacks: &mut Vec<SliceStack>)
    requires
        forall|i: int| 0 <= i < old(stacks)@.len() ==> (#[trigger] old(stacks)@[i]).wf(),
    ensures
        final(stacks)@.len() == old(stacks)@.len(),
        forall|i: int|
            0 <= i < old(stacks)@.len() ==> (#[trigger] final(stacks)@[i]).wf() && complete(
                final(stacks)@[i]@.slices,
            ) && final(stacks)@[i]@.slices.to_multiset() == old(stacks)@[i]@.slices.to_multiset()
                && final(stacks)@[i]@.slices.len() == old(stacks)@[i]@.slices.len()
                && final(stacks)@[i]@.type_count == old(stacks)@[i]@.type_count,
{
    let mut idx: usize = 0;
    while idx < stacks.len()
        invariant
            stacks@.len() == old(stacks)@.len(),
            idx <= stacks@.len(),
            forall|i: int| 0 <= i < old(stacks)@.len() ==> (#[trigger] old(stacks)@[i]).wf(),
            forall|i: int| idx <= i < stacks@.len() ==> #[trigger] stacks@[i] == old(stacks)@[i],
            forall|i: int|
                0 <= i < idx ==> (#[trigger] stacks@[i]).wf() && complete(stacks@[i]@.slices)
                    && stacks@[i]@.slices.to_multiset() == old(stacks)@[i]@.slices.to_multiset()
                    && stacks@[i]@.slices.len() == old(stacks)@[i]@.slices.len()
                    && stacks@[i]@.type_count == old(stacks)@[i]@.type_count,
        decreases stacks@.len() - idx,
    {
        let s = &mut stacks[idx];
        s.solve();
        idx += 1;
    }
}

} // verus!
