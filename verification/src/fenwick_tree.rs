//! A binary indexed tree over signed 64-bit values: point updates and
//! prefix-sum queries in logarithmic time.

use vstd::prelude::*;

verus! {

/// Sum of the model values `s[lo..hi)`.
pub open spec fn sum_range(s: Seq<int>, lo: int, hi: int) -> int
    decreases hi - lo,
{
    if lo >= hi {
        0
    } else {
        s[lo] + sum_range(s, lo + 1, hi)
    }
}

/// Every contiguous range sum of `s` fits in an `i64`; the accumulator
/// slots and all intermediate query sums are such range sums, so this is
/// what keeps the tree's arithmetic inside the machine type.
pub open spec fn sums_fit(s: Seq<int>) -> bool {
    forall|lo: int, hi: int|
        0 <= lo <= hi <= s.len() ==> i64::MIN <= #[trigger] sum_range(s, lo, hi) <= i64::MAX
}

/// `j` with its lowest set bit cleared: the left end of the range that
/// slot `j` of the tree accumulates. Meaningful for `1 <= j <= usize::MAX`.
pub open spec fn lo_i(j: int) -> int {
    ((j as u64) & ((j - 1) as u64)) as int
}

/// The lowest set bit of `j`.
pub open spec fn lb_i(j: int) -> int {
    j - lo_i(j)
}

proof fn lemma_lowbit_basics(j: usize)
    requires
        1 <= j,
    ensures
        lo_i(j as int) == j & ((j - 1) as usize),
        lo_i(j as int) < j,
        1 <= lb_i(j as int) <= j,
{
    let j64 = j as u64;
    assert((j & ((j - 1) as usize)) == ((j64 & ((j64 - 1) as u64)) as usize) && (j64 & ((j64
        - 1) as u64)) < j64) by (bit_vector)
        requires
            j >= 1 && j64 == j,
    ;
}

proof fn lemma_step_up(j: usize)
    requires
        1 <= j <= usize::MAX / 2,
    ensures
        j + lb_i(j as int) <= usize::MAX,
        lo_i(j + lb_i(j as int)) <= lo_i(j as int),
        lb_i(j + lb_i(j as int)) > lb_i(j as int),
{
    lemma_lowbit_basics(j);
    let j64 = j as u64;
    let q = j64 & ((j64 - 1) as u64);
    let p = (j64 + (j64 - q)) as u64;
    assert(j64 + (j64 - q) <= 0xffff_ffff_ffff_ffffu64 && p > j64 && (p & ((p - 1) as u64)) <= q
        && (p - (p & ((p - 1) as u64))) > (j64 - q)) by (bit_vector)
        requires
            1 <= j64 && j64 <= 0x7fff_ffff_ffff_ffffu64 && q == (j64 & ((j64 - 1) as u64)) && p == (
            (j64 + (j64 - q)) as u64),
    ;
    assert(p == j + lb_i(j as int));
}

proof fn lemma_gap(j: usize, r: usize)
    requires
        1 <= j <= usize::MAX / 2,
        1 <= r,
        r < lb_i(j as int),
    ensures
        lo_i(j + r) >= j,
{
    lemma_lowbit_basics(j);
    let j64 = j as u64;
    let r64 = r as u64;
    let s = (j64 + r64) as u64;
    assert((s & ((s - 1) as u64)) >= j64) by (bit_vector)
        requires
            1 <= j64 && j64 <= 0x7fff_ffff_ffff_ffffu64 && 1 <= r64 && r64 < j64 - (j64 & ((j64
                - 1) as u64)) && s == ((j64 + r64) as u64),
    ;
}

proof fn lemma_children_disjoint(c1: usize, c2: usize)
    requires
        1 <= c1 < c2 <= usize::MAX / 2,
        c1 + lb_i(c1 as int) == c2 + lb_i(c2 as int),
    ensures
        c1 <= lo_i(c2 as int),
{
    lemma_lowbit_basics(c1);
    lemma_lowbit_basics(c2);
    let a = c1 as u64;
    let b = c2 as u64;
    assert(a <= (b & ((b - 1) as u64))) by (bit_vector)
        requires
            1 <= a && a < b && b <= 0x7fff_ffff_ffff_ffffu64 && a + (a - (a & ((a - 1) as u64)))
                == b + (b - (b & ((b - 1) as u64))),
    ;
}

proof fn lemma_prev_child(c: usize)
    requires
        1 <= c <= usize::MAX / 2,
    ensures
        ({
            let p = c + lb_i(c as int);
            lo_i(c as int) == lo_i(p) || (lo_i(c as int) >= 1 && lo_i(c as int) + lb_i(
                lo_i(c as int),
            ) == p)
        }),
{
    lemma_lowbit_basics(c);
    lemma_step_up(c);
    let c64 = c as u64;
    let q = c64 & ((c64 - 1) as u64);
    let p = (c64 + (c64 - q)) as u64;
    assert(q == (p & ((p - 1) as u64)) || (q >= 1 && q + (q - (q & ((q - 1) as u64))) == p)) by (bit_vector)
        requires
            1 <= c64 && c64 <= 0x7fff_ffff_ffff_ffffu64 && q == (c64 & ((c64 - 1) as u64)) && p == (
            (c64 + (c64 - q)) as u64),
    ;
    assert(p == c + lb_i(c as int));
    assert(q == lo_i(c as int));
}

proof fn lemma_parity(j: usize)
    requires
        1 <= j <= usize::MAX / 2,
    ensures
        j % 2 == 0 ==> j >= 2 && (j - 1) + lb_i(j - 1) == j,
        j % 2 == 1 ==> lo_i(j as int) == j - 1,
{
    lemma_lowbit_basics(j);
    let j64 = j as u64;
    assert((j64 % 2 == 0 ==> j64 >= 2 && (j64 - 1) + ((j64 - 1) - (((j64 - 1) as u64) & ((j64
        - 2) as u64))) == j64) && (j64 % 2 == 1 ==> (j64 & ((j64 - 1) as u64)) == j64 - 1)) by (bit_vector)
        requires
            1 <= j64 && j64 <= 0x7fff_ffff_ffff_ffffu64,
    ;
    if j % 2 == 0 {
        lemma_lowbit_basics((j - 1) as usize);
    }
}

/// Any slot that some slot chain steps past is not affected by updates
/// at positions the stepping slot covers: derived child bound.
proof fn lemma_child_above(c: usize, p: int)
    requires
        1 <= c <= usize::MAX / 2,
        c + lb_i(c as int) == p,
    ensures
        c > lo_i(p),
        lo_i(p) <= lo_i(c as int),
        c < p,
{
    lemma_lowbit_basics(c);
    lemma_step_up(c);
}

proof fn lemma_sum_concat(s: Seq<int>, a: int, b: int, c: int)
    requires
        a <= b <= c,
    ensures
        sum_range(s, a, b) + sum_range(s, b, c) == sum_range(s, a, c),
    decreases b - a,
{
    if a < b {
        lemma_sum_concat(s, a + 1, b, c);
    }
}

proof fn lemma_sum_update(s: Seq<int>, x: int, v: int, lo: int, hi: int)
    requires
        0 <= x < s.len(),
        0 <= lo,
        hi <= s.len(),
    ensures
        sum_range(s.update(x, v), lo, hi) == sum_range(s, lo, hi) + if lo <= x < hi {
            v - s[x]
        } else {
            0
        },
    decreases hi - lo,
{
    if lo < hi {
        lemma_sum_update(s, x, v, lo + 1, hi);
    }
}

proof fn lemma_sum_all_zero(s: Seq<int>, lo: int, hi: int)
    requires
        forall|i: int| 0 <= i < s.len() ==> s[i] == 0,
        0 <= lo,
        hi <= s.len(),
    ensures
        sum_range(s, lo, hi) == 0,
    decreases hi - lo,
{
    if lo < hi {
        lemma_sum_all_zero(s, lo + 1, hi);
    }
}

/// The right end of what slot `j` has accumulated after the first `i`
/// elements of the one-pass construction have been folded in: the largest
/// slot at most `i` that pushes into `j`, or the left end of `j`'s range
/// when no such slot has completed yet.
spec fn fr(j: int, i: int) -> int
    decreases i,
{
    if i <= 0 {
        lo_i(j)
    } else if i + lb_i(i) == j {
        i
    } else {
        fr(j, i - 1)
    }
}

proof fn lemma_fr_no_child(j: int, a: int, b: int)
    requires
        0 <= b <= a,
        forall|c: int| b < c <= a ==> c + lb_i(c) != j,
    ensures
        fr(j, a) == fr(j, b),
    decreases a - b,
{
    if a > b {
        lemma_fr_no_child(j, a - 1, b);
    }
}

/// A Fenwick (binary indexed) tree. The model is the logical array of
/// values, as mathematical integers; the `tree` field is the derived
/// encoding where slot `j` holds the sum of `vals[lo_i(j)..j)`.
pub struct FenwickTree {
    tree: Vec<i64>,
    vals: Ghost<Seq<int>>,
}

impl View for FenwickTree {
    type V = Seq<int>;

    closed spec fn view(&self) -> Seq<int> {
        self.vals@
    }
}

impl FenwickTree {
    /// Internal invariant: the tree array is exactly the Fenwick encoding
    /// of the model array, and every range sum of the model fits in `i64`.
    pub closed spec fn wf(self) -> bool {
        &&& self.tree@.len() == self.vals@.len() + 1
        &&& self.vals@.len() <= usize::MAX / 2
        &&& sums_fit(self.vals@)
        &&& self.tree@[0] == 0
        &&& forall|j: int|
            1 <= j <= self.vals@.len() ==> (#[trigger] self.tree@[j]) as int == sum_range(
                self.vals@,
                lo_i(j),
                j,
            )
    }

    /// Creates a tree whose logical array holds `size` zeros.
    pub fn new(size: usize) -> (r: Self)
        requires
            size <= usize::MAX / 2,
        ensures
            r.wf(),
            r@ == Seq::new(size as nat, |i: int| 0int),
    {
        let ghost vals = Seq::new(size as nat, |i: int| 0int);
        let mut tree: Vec<i64> = Vec::new();
        let mut k: usize = 0;
        while k < size + 1
            invariant
                size <= usize::MAX / 2,
                k <= size + 1,
                tree@.len() == k,
                forall|t: int| 0 <= t < k ==> tree@[t] == 0,
            decreases size + 1 - k,
        {
            tree.push(0i64);
            k += 1;
        }
        proof {
            assert forall|lo: int, hi: int| 0 <= lo <= hi <= vals.len() implies i64::MIN
                <= #[trigger] sum_range(vals, lo, hi) <= i64::MAX by {
                lemma_sum_all_zero(vals, lo, hi);
            }
            assert forall|j: int| 1 <= j <= vals.len() implies (#[trigger] tree@[j]) as int
                == sum_range(vals, lo_i(j), j) by {
                lemma_lowbit_basics(j as usize);
                lemma_sum_all_zero(vals, lo_i(j), j);
            }
        }
        FenwickTree { tree, vals: Ghost(vals) }
    }

    /// The length of the logical array.
    pub fn len(&self) -> (r: usize)
        requires
            self.wf(),
        ensures
            r == self@.len(),
    {
        self.tree.len() - 1
    }

    /// Adds `delta` to the logical value at `index`, updating every
    /// accumulator slot whose range covers `index`.
    pub fn add(&mut self, index: usize, delta: i64)
        requires
            old(self).wf(),
            index < old(self)@.len(),
            sums_fit(old(self)@.update(index as int, old(self)@[index as int] + delta)),
        ensures
            final(self).wf(),
            final(self)@ == old(self)@.update(index as int, old(self)@[index as int] + delta),
    {
        let ghost v0 = self.vals@;
        let ghost v1 = v0.update(index as int, v0[index as int] + delta as int);
        let n = self.tree.len() - 1;
        proof {
            self.vals@ = v1;
        }
        let mut idx: usize = index + 1;
        proof {
            lemma_lowbit_basics(idx);
            assert forall|j: int| 1 <= j <= n && !(lo_i(j) <= index < j) implies sum_range(
                v1,
                lo_i(j),
                j,
            ) == sum_range(v0, lo_i(j), j) by {
                lemma_sum_update(v0, index as int, v0[index as int] + delta as int, lo_i(j), j);
            }
        }
        while idx < n + 1
            invariant
                self.vals@ == v1,
                self.tree@.len() == n + 1,
                v0.len() == n,
                v1.len() == n,
                n <= usize::MAX / 2,
                v1 == v0.update(index as int, v0[index as int] + delta as int),
                0 <= index < n,
                sums_fit(v0),
                sums_fit(v1),
                1 <= idx,
                lo_i(idx as int) <= index < idx,
                self.tree@[0] == 0,
                forall|j: int|
                    1 <= j <= n ==> (#[trigger] self.tree@[j]) as int == sum_range(
                        if lo_i(j) <= index < j && j >= idx {
                            v0
                        } else {
                            v1
                        },
                        lo_i(j),
                        j,
                    ),
            decreases (if idx as int <= n + 1 { n + 1 - idx as int } else { 0int }),
        {
            proof {
                lemma_lowbit_basics(idx);
                lemma_sum_update(v0, index as int, v0[index as int] + delta as int, lo_i(idx as int), idx as int);
                assert(sum_range(v1, lo_i(idx as int), idx as int) == sum_range(v0, lo_i(idx as int), idx as int) + delta);
                assert(i64::MIN <= sum_range(v1, lo_i(idx as int), idx as int) <= i64::MAX);
            }
            let low: usize = idx & (idx - 1);
            let updated: i64 = self.tree[idx] + delta;
            self.tree[idx] = updated;
            let next: usize = idx + (idx - low);
            proof {
                lemma_step_up(idx);
                let ghost old_idx = idx as int;
                assert forall|j: int|
                    1 <= j <= n && old_idx < j < old_idx + lb_i(old_idx) implies !(#[trigger] lo_i(
                    j,
                ) <= index < j) by {
                    lemma_gap(idx, (j - old_idx) as usize);
                }
            }
            idx = next;
        }
        proof {
            assert forall|j: int| 1 <= j <= n implies (#[trigger] self.tree@[j]) as int
                == sum_range(v1, lo_i(j), j) by {
                if lo_i(j) <= index < j && j >= idx {
                } else {
                    lemma_sum_update(v0, index as int, v0[index as int] + delta as int, lo_i(j), j);
                }
            }
        }
    }

    /// Builds the tree from an existing array of values in one linear
    /// pass: each position folds its accumulated total into the next
    /// slot that covers it.
    pub fn from_vec(values: &[i64]) -> (r: Self)
        requires
            values@.len() <= usize::MAX / 2,
            sums_fit(values@.map_values(|x: i64| x as int)),
        ensures
            r.wf(),
            r@ == values@.map_values(|x: i64| x as int),
    {
        let ghost v = values@.map_values(|x: i64| x as int);
        let n = values.len();
        let mut tree: Vec<i64> = Vec::new();
        let mut k: usize = 0;
        while k < n + 1
            invariant
                n <= usize::MAX / 2,
                k <= n + 1,
                tree@.len() == k,
                forall|t: int| 0 <= t < k ==> tree@[t] == 0,
            decreases n + 1 - k,
        {
            tree.push(0i64);
            k += 1;
        }
        let mut i: usize = 0;
        while i < n
            invariant
                i <= n,
                n == values@.len(),
                n <= usize::MAX / 2,
                v == values@.map_values(|x: i64| x as int),
                sums_fit(v),
                tree@.len() == n + 1,
                tree@[0] == 0,
                forall|j: int|
                    1 <= j <= n ==> (#[trigger] tree@[j]) as int == sum_range(
                        v,
                        lo_i(j),
                        if j <= i {
                            j
                        } else {
                            fr(j, i as int)
                        },
                    ),
            decreases n - i,
        {
            let idx = i + 1;
            proof {
                lemma_lowbit_basics(idx);
                // before this step, slot idx has accumulated exactly v[lo_i(idx)..idx-1)
                lemma_parity(idx);
                if idx % 2 == 1 {
                    assert forall|c: int| 0 < c <= i implies c + lb_i(c) != idx as int by {
                        if c + lb_i(c) == idx as int {
                            lemma_child_above(c as usize, idx as int);
                        }
                    }
                    lemma_fr_no_child(idx as int, i as int, 0);
                }
                assert(fr(idx as int, i as int) == i as int);
                lemma_sum_concat(v, lo_i(idx as int), i as int, idx as int);
                assert(sum_range(v, i as int, idx as int) == v[i as int] + sum_range(v, idx as int, idx as int));
                assert(i64::MIN <= sum_range(v, lo_i(idx as int), idx as int) <= i64::MAX);
            }
            let complete: i64 = tree[idx] + values[i];
            tree[idx] = complete;
            let low: usize = idx & (idx - 1);
            let parent: usize = idx + (idx - low);
            proof {
                lemma_step_up(idx);
            }
            if parent < n + 1 {
                proof {
                    // the parent had accumulated v[lo_i(parent)..lo_i(idx)): the
                    // completed slots below idx tile that range exactly
                    let p = parent as int;
                    lemma_child_above(idx, p);
                    assert forall|c: int| lo_i(idx as int) < c <= i implies c + lb_i(c) != p by {
                        if c + lb_i(c) == p {
                            lemma_children_disjoint(c as usize, idx);
                        }
                    }
                    lemma_fr_no_child(p, i as int, lo_i(idx as int));
                    lemma_prev_child(idx);
                    if lo_i(idx as int) >= 1 && lo_i(idx as int) + lb_i(lo_i(idx as int)) == p {
                        assert(fr(p, lo_i(idx as int)) == lo_i(idx as int));
                    } else {
                        assert(lo_i(idx as int) == lo_i(p));
                        assert forall|c: int| 0 < c <= lo_i(idx as int) implies c + lb_i(c) != p by {
                            if c + lb_i(c) == p {
                                lemma_child_above(c as usize, p);
                            }
                        }
                        lemma_fr_no_child(p, lo_i(idx as int), 0);
                    }
                    assert(fr(p, i as int) == lo_i(idx as int));
                    lemma_sum_concat(v, lo_i(p), lo_i(idx as int), idx as int);
                    assert(i64::MIN <= sum_range(v, lo_i(p), idx as int) <= i64::MAX);
                }
                let pushed: i64 = tree[parent] + tree[idx];
                tree[parent] = pushed;
            }
            proof {
                // frontiers of the untouched incomplete slots are unchanged
                assert forall|j: int| 1 <= j <= n && j > i + 1 && j != parent as int implies
                    #[trigger] fr(j, i as int + 1) == fr(j, i as int) by {}
            }
            i += 1;
        }
        FenwickTree { tree, vals: Ghost(v) }
    }

    /// The inclusive prefix sum of the logical values `[0, index]`.
    pub fn query(&self, index: usize) -> (r: i64)
        requires
            self.wf(),
            index < self@.len(),
        ensures
            r as int == sum_range(self@, 0, index + 1),
    {
        let mut idx: usize = index + 1;
        let mut sum: i64 = 0;
        while idx > 0
            invariant
                self.wf(),
                index < self@.len(),
                idx <= index + 1,
                sum as int == sum_range(self@, idx as int, index + 1),
            decreases idx,
        {
            proof {
                lemma_lowbit_basics(idx);
                lemma_sum_concat(self@, lo_i(idx as int), idx as int, index + 1);
                assert(i64::MIN <= sum_range(self@, lo_i(idx as int), index + 1) <= i64::MAX);
            }
            sum = sum + self.tree[idx];
            idx = idx & (idx - 1);
        }
        sum
    }

    /// The sum of the logical values over the inclusive range
    /// `[start, end]`; an inverted range is empty and sums to zero.
    pub fn range_sum(&self, start: usize, end: usize) -> (r: i64)
        requires
            self.wf(),
            end < self@.len(),
        ensures
            r as int == if start > end {
                0
            } else {
                sum_range(self@, start as int, end + 1)
            },
    {
        if start > end {
            return 0;
        }
        if start == 0 {
            self.query(end)
        } else {
            proof {
                lemma_sum_concat(self@, 0, start as int, end + 1);
                assert(i64::MIN <= sum_range(self@, start as int, end + 1) <= i64::MAX);
            }
            self.query(end) - self.query(start - 1)
        }
    }

    /// A copy of the internal accumulator array: slot `j` holds the sum
    /// of the logical values over `[lo_i(j), j)`, and slot 0 is 0.
    pub fn get_internal_tree(&self) -> (r: Vec<i64>)
        requires
            self.wf(),
        ensures
            r@.len() == self@.len() + 1,
            r@[0] == 0,
            forall|j: int| 1 <= j <= self@.len() ==> (#[trigger] r@[j]) as int == sum_range(
                self@,
                lo_i(j),
                j,
            ),
    {
        let mut out: Vec<i64> = Vec::new();
        let mut k: usize = 0;
        while k < self.tree.len()
            invariant
                self.wf(),
                k <= self.tree@.len(),
                out@.len() == k,
                forall|t: int| 0 <= t < k ==> out@[t] == self.tree@[t],
            decreases self.tree@.len() - k,
        {
            out.push(self.tree[k]);
            k += 1;
        }
        out
    }
}

/// The full-range sum is the sum of the whole logical array: querying
/// `[0, n-1]` of an `n`-element tree yields the total.
pub proof fn lemma_range_sum_is_total(s: Seq<int>)
    requires
        s.len() >= 1,
    ensures
        sum_range(s, 0, (s.len() - 1) + 1) == sum_range(s, 0, s.len() as int),
{
}

/// Folding an array into a fresh all-zero logical array by adding each
/// value at its own index, in order, yields that array: building from a
/// vector agrees with a sequence of point updates on an empty tree.
pub proof fn lemma_build_equals_adds(a: Seq<int>, i: int)
    requires
        0 <= i <= a.len(),
    ensures
        apply_adds(Seq::new(a.len(), |k: int| 0int), a, i) == Seq::new(
            a.len(),
            |k: int| if k < i {
                a[k]
            } else {
                0int
            },
        ),
    decreases i,
{
    if i == 0 {
        assert(apply_adds(Seq::new(a.len(), |k: int| 0int), a, 0) =~= Seq::new(
            a.len(),
            |k: int| if k < 0 {
                a[k]
            } else {
                0int
            },
        ));
    } else {
        lemma_build_equals_adds(a, i - 1);
        assert(apply_adds(Seq::new(a.len(), |k: int| 0int), a, i) =~= Seq::new(
            a.len(),
            |k: int| if k < i {
                a[k]
            } else {
                0int
            },
        ));
    }
}

/// The logical array after adding `a[0]`, ..., `a[i-1]` at indices
/// `0, ..., i-1` to the array `s`.
pub open spec fn apply_adds(s: Seq<int>, a: Seq<int>, i: int) -> Seq<int>
    decreases i,
{
    if i <= 0 {
        s
    } else {
        apply_adds(s, a, i - 1).update(i - 1, apply_adds(s, a, i - 1)[i - 1] + a[i - 1])
    }
}

} // verus!
