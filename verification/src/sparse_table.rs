//! A sparse table answering idempotent range queries (minimum) over an
//! immutable array: linearithmic construction, constant-time lookup.

use vstd::prelude::*;

verus! {

use vstd::arithmetic::power2::{
    pow2,
    lemma_pow2_pos,
    lemma_pow2_strictly_increases,
    lemma_pow2_unfold,
    lemma2_to64,
};

/// The smaller of two values.
pub open spec fn min2(a: i64, b: i64) -> i64 {
    if a < b {
        a
    } else {
        b
    }
}

/// The minimum of `s[lo..hi)`, the naive linear-scan minimum.
pub open spec fn range_min(s: Seq<i64>, lo: int, hi: int) -> i64
    recommends
        0 <= lo < hi <= s.len(),
    decreases hi - lo,
{
    if hi - lo <= 1 {
        s[lo]
    } else {
        min2(s[lo], range_min(s, lo + 1, hi))
    }
}

proof fn lemma_range_min_le(s: Seq<i64>, lo: int, hi: int, x: int)
    requires
        0 <= lo <= x < hi <= s.len(),
    ensures
        range_min(s, lo, hi) <= s[x],
    decreases hi - lo,
{
    if x > lo {
        lemma_range_min_le(s, lo + 1, hi, x);
    }
}

proof fn lemma_range_min_attained(s: Seq<i64>, lo: int, hi: int)
    requires
        0 <= lo < hi <= s.len(),
    ensures
        exists|x: int| lo <= x < hi && s[x] == range_min(s, lo, hi),
    decreases hi - lo,
{
    if hi - lo <= 1 {
        assert(lo <= lo < hi && s[lo] == range_min(s, lo, hi));
    } else {
        lemma_range_min_attained(s, lo + 1, hi);
        let x = choose|x: int| lo + 1 <= x < hi && s[x] == range_min(s, lo + 1, hi);
        if s[lo] < range_min(s, lo + 1, hi) {
            assert(lo <= lo < hi && s[lo] == range_min(s, lo, hi));
        } else {
            assert(lo <= x < hi && s[x] == range_min(s, lo, hi));
        }
    }
}

proof fn lemma_range_min_concat(s: Seq<i64>, lo: int, mid: int, hi: int)
    requires
        0 <= lo < mid < hi <= s.len(),
    ensures
        range_min(s, lo, hi) == min2(range_min(s, lo, mid), range_min(s, mid, hi)),
    decreases mid - lo,
{
    if mid - lo > 1 {
        lemma_range_min_concat(s, lo + 1, mid, hi);
    }
}

/// Two overlapping windows that together cover a range have the range's
/// minimum as the smaller of their minima: overlap does not distort an
/// idempotent combiner.
proof fn lemma_range_min_cover(s: Seq<i64>, lo: int, hi: int, a_hi: int, b_lo: int)
    requires
        0 <= lo < hi <= s.len(),
        lo < a_hi <= hi,
        lo <= b_lo < hi,
        b_lo <= a_hi,
    ensures
        min2(range_min(s, lo, a_hi), range_min(s, b_lo, hi)) == range_min(s, lo, hi),
{
    let m = range_min(s, lo, hi);
    let ma = range_min(s, lo, a_hi);
    let mb = range_min(s, b_lo, hi);
    lemma_range_min_attained(s, lo, hi);
    let x = choose|x: int| lo <= x < hi && s[x] == m;
    if x < a_hi {
        lemma_range_min_le(s, lo, a_hi, x);
    } else {
        lemma_range_min_le(s, b_lo, hi, x);
    }
    lemma_range_min_attained(s, lo, a_hi);
    let xa = choose|x: int| lo <= x < a_hi && s[x] == ma;
    lemma_range_min_le(s, lo, hi, xa);
    lemma_range_min_attained(s, b_lo, hi);
    let xb = choose|x: int| b_lo <= x < hi && s[x] == mb;
    lemma_range_min_le(s, lo, hi, xb);
}

/// Row `k` of `table` holds, for each start `u`, the minimum of the
/// `2^k` elements of `s` from `u`.
spec fn rows_ok(table: Seq<Vec<i64>>, s: Seq<i64>) -> bool {
    &&& forall|k: int| 0 <= k < table.len() ==> #[trigger] pow2(k as nat) <= s.len()
    &&& forall|k: int|
        0 <= k < table.len() ==> (#[trigger] table[k]@).len() == s.len() - pow2(k as nat) + 1
    &&& forall|k: int, u: int|
        0 <= k < table.len() && 0 <= u < table[k]@.len() ==> (#[trigger] table[k]@[u]) == range_min(
            s,
            u,
            u + pow2(k as nat),
        )
}

/// Precomputed minima of power-of-two windows over a source array.
/// Row `k` holds, for each start index `i`, the minimum of the `2^k`
/// elements from `i`; `log` caches floor(log2) per query length.
pub struct SparseTable {
    table: Vec<Vec<i64>>,
    log: Vec<usize>,
}

impl View for SparseTable {
    type V = Seq<i64>;

    closed spec fn view(&self) -> Seq<i64> {
        if self.table@.len() == 0 {
            Seq::empty()
        } else {
            self.table@[0]@
        }
    }
}

impl SparseTable {
    /// Internal invariant: the log table brackets every query length
    /// between consecutive powers of two, there is one row per power of
    /// two up to the array length, and each row holds the window minima
    /// of its power-of-two width.
    pub closed spec fn wf(self) -> bool {
        let n = self@.len() as int;
        &&& n < usize::MAX
        &&& self.log@.len() == n + 1
        &&& (self.table@.len() == 0 <==> n == 0)
        &&& forall|t: int|
            1 <= t <= n ==> pow2((#[trigger] self.log@[t]) as nat) <= t < pow2(
                (self.log@[t] + 1) as nat,
            )
        &&& (n > 0 ==> self.table@.len() == self.log@[n] + 1)
        &&& rows_ok(self.table@, self@)
    }

    /// Builds the table from a source array.
    #[verifier::rlimit(60)]
    pub fn from_slice(arr: &[i64]) -> (r: Self)
        requires
            arr@.len() < usize::MAX,
        ensures
            r.wf(),
            r@ == arr@,
    {
        let n = arr.len();
        proof {
            lemma2_to64();
        }
        let mut log: Vec<usize> = Vec::new();
        let mut i: usize = 0;
        while i < n + 1
            invariant
                n < usize::MAX,
                i <= n + 1,
                log@.len() == i,
                forall|t: int| 0 <= t < i ==> (#[trigger] log@[t]) <= t,
                forall|t: int|
                    1 <= t < i ==> pow2((#[trigger] log@[t]) as nat) <= t < pow2(
                        (log@[t] + 1) as nat,
                    ),
            decreases n + 1 - i,
        {
            if i < 2 {
                log.push(0);
                proof {
                    lemma2_to64();
                }
            } else {
                let v = log[i / 2] + 1;
                proof {
                    lemma_pow2_unfold(v as nat);
                    lemma_pow2_unfold((v + 1) as nat);
                }
                log.push(v);
            }
            i += 1;
        }
        let mut table: Vec<Vec<i64>> = Vec::new();
        if n == 0 {
            return SparseTable { table, log };
        }
        let mut row0: Vec<i64> = Vec::new();
        let mut t: usize = 0;
        while t < n
            invariant
                t <= n,
                n == arr@.len(),
                row0@.len() == t,
                forall|u: int| 0 <= u < t ==> (#[trigger] row0@[u]) == arr@[u],
            decreases n - t,
        {
            row0.push(arr[t]);
            t += 1;
        }
        proof {
            assert(row0@ =~= arr@);
            lemma2_to64();
        }
        table.push(row0);
        proof {
            assert forall|k: int| 0 <= k < table@.len() implies #[trigger] pow2(k as nat)
                <= arr@.len() by {
                assert(k == 0);
            }
            assert forall|k: int|
                0 <= k < table@.len() implies (#[trigger] table@[k]@).len() == arr@.len() - pow2(
                k as nat,
            ) + 1 by {
                assert(table@[k] == row0);
            }
            assert forall|k: int, u: int|
                0 <= k < table@.len() && 0 <= u < table@[k]@.len() implies (
            #[trigger] table@[k]@[u]) == range_min(arr@, u, u + pow2(k as nat)) by {
                assert(table@[k] == row0);
            }
            assert(rows_ok(table@, arr@));
        }
        let mut width: usize = 1;
        while width <= n / 2
            invariant
                1 <= n < usize::MAX,
                n == arr@.len(),
                1 <= width <= n,
                table@.len() >= 1,
                table@[0]@ == arr@,
                width == pow2((table@.len() - 1) as nat),
                rows_ok(table@, arr@),
            decreases n - width,
        {
            let half = width;
            let new_width = width * 2;
            proof {
                lemma_pow2_unfold(table@.len() as nat);
                assert(new_width == pow2(table@.len() as nat));
            }
            let len = n - new_width + 1;
            let mut row: Vec<i64> = Vec::new();
            let mut s: usize = 0;
            while s < len
                invariant
                    s <= len,
                    new_width == 2 * half,
                    1 <= half,
                    new_width <= n,
                    len == n - new_width + 1,
                    table@.len() >= 1,
                    n == arr@.len(),
                    half == pow2((table@.len() - 1) as nat),
                    new_width == pow2(table@.len() as nat),
                    table@[table@.len() - 1]@.len() == n - half + 1,
                    forall|u: int|
                        0 <= u < table@[table@.len() - 1]@.len() ==> (#[trigger] table@[table@.len()
                            - 1]@[u]) == range_min(arr@, u, u + half),
                    row@.len() == s,
                    forall|u: int|
                        0 <= u < s ==> (#[trigger] row@[u]) == range_min(arr@, u, u + new_width),
                decreases len - s,
            {
                let prev = &table[table.len() - 1];
                let a = prev[s];
                let b = prev[s + half];
                proof {
                    lemma_range_min_concat(arr@, s as int, s + half, s + new_width);
                }
                row.push(
                    if a < b {
                        a
                    } else {
                        b
                    },
                );
                s += 1;
            }
            let ghost old_table = table@;
            table.push(row);
            proof {
                assert(new_width <= n);
                assert(new_width == pow2(old_table.len() as nat));
                assert forall|k: int| 0 <= k < table@.len() implies #[trigger] pow2(k as nat)
                    <= n by {
                    if k == old_table.len() {
                        assert(pow2(k as nat) == new_width);
                    }
                }
                assert forall|k: int|
                    0 <= k < table@.len() implies (#[trigger] table@[k]@).len() == n - pow2(
                    k as nat,
                ) + 1 by {
                    if k < table@.len() - 1 {
                        assert(table@[k] == old_table[k]);
                        assert(old_table[k]@.len() == n - pow2(k as nat) + 1);
                    } else {
                        assert(k == old_table.len());
                        assert(pow2(k as nat) == new_width);
                        assert(table@[k] == row);
                    }
                }
                assert forall|k: int, u: int|
                    0 <= k < table@.len() && 0 <= u < table@[k]@.len() implies (
                #[trigger] table@[k]@[u]) == range_min(arr@, u, u + pow2(k as nat)) by {
                    if k < table@.len() - 1 {
                        assert(table@[k] == old_table[k]);
                        assert(old_table[k]@.len() == n - pow2(k as nat) + 1);
                        assert(old_table[k]@[u] == range_min(arr@, u, u + pow2(k as nat)));
                    } else {
                        assert(k == old_table.len());
                        assert(pow2(k as nat) == new_width);
                        assert(table@[k] == row);
                    }
                }
                assert(rows_ok(table@, arr@));
            }
            width = new_width;
        }
        proof {
            // the row count is exactly log2(n) + 1: widths are powers of
            // two and the last one is the largest not exceeding n
            let nn = n as int;
            let kk = (table@.len() - 1) as nat;
            let lg = log@[nn] as nat;
            lemma_pow2_unfold(kk + 1);
            assert(pow2(kk) <= nn < 2 * pow2(kk));
            assert(pow2(lg) <= nn < pow2(lg + 1));
            if kk < lg {
                if kk + 1 < lg {
                    lemma_pow2_strictly_increases(kk + 1, lg);
                }
                assert(false);
            }
            if kk > lg {
                if lg + 1 < kk {
                    lemma_pow2_strictly_increases(lg + 1, kk);
                }
                assert(false);
            }
        }
        SparseTable { table, log }
    }

    /// The minimum over the inclusive range `[l, r]` of the source
    /// array: exactly the linear-scan minimum on a valid range, and no
    /// result (rather than an error) on an empty table, an inverted
    /// range or an out-of-bounds right end.
    #[verifier::rlimit(60)]
    pub fn query(&self, l: usize, r: usize) -> (res: Option<i64>)
        requires
            self.wf(),
        ensures
            (self@.len() == 0 || l > r || r >= self@.len()) ==> res is None,
            (self@.len() > 0 && l <= r < self@.len()) ==> res == Some(
                range_min(self@, l as int, r + 1),
            ),
    {
        if self.table.len() == 0 {
            return None;
        }
        let n = self.table[0].len();
        proof {
            lemma2_to64();
            assert(n == self@.len());
        }
        if l > r || r >= n {
            return None;
        }
        let len = r - l + 1;
        let k = self.log[len];
        proof {
            let nn = n as int;
            let lg = self.log@[nn] as nat;
            lemma_pow2_pos(k as nat);
            lemma_pow2_unfold((k + 1) as nat);
            assert(pow2(k as nat) <= len as int);
            assert((len as int) < pow2((k + 1) as nat));
            assert(pow2(lg) <= nn < pow2(lg + 1));
            if k as int > lg {
                if lg + 1 < k as nat {
                    lemma_pow2_strictly_increases(lg + 1, k as nat);
                }
                assert(false);
            }
        }
        let row = &self.table[k];
        let rl = row.len();
        let width = n + 1 - rl;
        proof {
            assert(width == pow2(k as nat));
            assert(width <= len);
            assert(len < 2 * width);
            lemma_range_min_cover(self@, l as int, r + 1, l + width, r + 1 - width);
        }
        let left = row[l];
        let right = row[r + 1 - width];
        Some(
            if left < right {
                left
            } else {
                right
            },
        )
    }
}

} // verus!
