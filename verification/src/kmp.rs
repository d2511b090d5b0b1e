//! Knuth-Morris-Pratt substring search over the bytes of UTF-8 strings:
//! the prefix function and overlap-aware occurrence search.

use vstd::prelude::*;

verus! {

use vstd::string::StringSliceAdditionalSpecFns;

/// `k` is the length of a proper border of the prefix `s[..n)`: a
/// prefix of that prefix, shorter than it, that is also its suffix.
pub open spec fn is_border(s: Seq<u8>, n: int, k: int) -> bool {
    &&& 0 <= k < n <= s.len()
    &&& forall|j: int| 0 <= j < k ==> (#[trigger] s[j]) == s[n - k + j]
}

/// `k` is the length of the longest proper border of `s[..n)`.
pub open spec fn is_max_border(s: Seq<u8>, n: int, k: int) -> bool {
    &&& is_border(s, n, k)
    &&& forall|k2: int| k < k2 ==> !(#[trigger] is_border(s, n, k2))
}

/// `p` occurs in `t` at byte offset `q`.
pub open spec fn match_at(t: Seq<u8>, p: Seq<u8>, q: int) -> bool {
    &&& 0 <= q
    &&& q + p.len() <= t.len()
    &&& forall|j: int| 0 <= j < p.len() ==> t[q + j] == (#[trigger] p[j])
}

/// The `k`-byte prefix of `p` is a suffix of `t[..i)`.
spec fn sfx(t: Seq<u8>, i: int, p: Seq<u8>, k: int) -> bool {
    &&& 0 <= k <= p.len()
    &&& k <= i <= t.len()
    &&& forall|j: int| 0 <= j < k ==> t[i - k + j] == (#[trigger] p[j])
}

proof fn lemma_border_extend(s: Seq<u8>, n: int, j: int)
    requires
        is_border(s, n, j),
        n < s.len(),
        s[j] == s[n],
    ensures
        is_border(s, n + 1, j + 1),
{
    assert forall|x: int| 0 <= x < j + 1 implies (#[trigger] s[x]) == s[(n + 1) - (j + 1) + x] by {}
}

proof fn lemma_border_shrink(s: Seq<u8>, n: int, k: int)
    requires
        is_border(s, n + 1, k),
        k >= 1,
    ensures
        is_border(s, n, k - 1),
        s[k - 1] == s[n],
{
    assert forall|x: int| 0 <= x < k - 1 implies (#[trigger] s[x]) == s[n - (k - 1) + x] by {
        assert(s[x] == s[(n + 1) - k + x]);
    }
    assert(s[k - 1] == s[(n + 1) - k + (k - 1)]);
}

proof fn lemma_border_of_border(s: Seq<u8>, n: int, b: int, c: int)
    requires
        is_border(s, n, b),
        is_border(s, b, c),
    ensures
        is_border(s, n, c),
{
    assert forall|x: int| 0 <= x < c implies (#[trigger] s[x]) == s[n - c + x] by {
        assert(s[x] == s[b - c + x]);
        assert(s[b - c + x] == s[n - b + (b - c + x)]);
    }
}

proof fn lemma_border_nested(s: Seq<u8>, n: int, b: int, c: int)
    requires
        is_border(s, n, b),
        is_border(s, n, c),
        c < b,
    ensures
        is_border(s, b, c),
{
    assert forall|x: int| 0 <= x < c implies (#[trigger] s[x]) == s[b - c + x] by {
        assert(s[x] == s[n - c + x]);
        assert(s[b - c + x] == s[n - b + (b - c + x)]);
    }
}

proof fn lemma_sfx_border(t: Seq<u8>, i: int, p: Seq<u8>, b: int, c: int)
    requires
        sfx(t, i, p, b),
        is_border(p, b, c),
    ensures
        sfx(t, i, p, c),
{
    assert forall|x: int| 0 <= x < c implies t[i - c + x] == (#[trigger] p[x]) by {
        assert(p[x] == p[b - c + x]);
        assert(t[i - b + (b - c + x)] == p[b - c + x]);
    }
}

proof fn lemma_sfx_sfx_border(t: Seq<u8>, i: int, p: Seq<u8>, b: int, c: int)
    requires
        sfx(t, i, p, b),
        sfx(t, i, p, c),
        0 <= c < b,
    ensures
        is_border(p, b, c),
{
    assert forall|x: int| 0 <= x < c implies (#[trigger] p[x]) == p[b - c + x] by {
        assert(t[i - c + x] == p[x]);
        assert(t[i - b + (b - c + x)] == p[b - c + x]);
    }
}

proof fn lemma_sfx_shrink(t: Seq<u8>, i: int, p: Seq<u8>, k: int)
    requires
        sfx(t, i + 1, p, k),
        k >= 1,
    ensures
        sfx(t, i, p, k - 1),
        t[i] == p[k - 1],
{
    assert forall|x: int| 0 <= x < k - 1 implies t[i - (k - 1) + x] == (#[trigger] p[x]) by {
        assert(t[(i + 1) - k + x] == p[x]);
    }
    assert(t[(i + 1) - k + (k - 1)] == p[k - 1]);
}

proof fn lemma_match_is_sfx(t: Seq<u8>, p: Seq<u8>, q: int)
    requires
        match_at(t, p, q),
    ensures
        sfx(t, q + p.len(), p, p.len() as int),
{
    assert forall|x: int| 0 <= x < p.len() implies t[(q + p.len()) - p.len() + x] == (
    #[trigger] p[x]) by {
        assert(t[q + x] == p[x]);
    }
}

/// The longest border can grow by at most one per position: a border of
/// a longer prefix shrinks to a border of the shorter one.
pub proof fn lemma_prefix_function_step(s: Seq<u8>, n: int, a: int, b: int)
    requires
        n >= 1,
        is_max_border(s, n, a),
        is_max_border(s, n + 1, b),
    ensures
        b <= a + 1,
{
    if b >= 1 {
        lemma_border_shrink(s, n, b);
    }
}

/// Computes the prefix function of `pattern` over its bytes: entry `i`
/// is the length of the longest proper prefix of `pattern[..=i]` that
/// is also a suffix of it.
pub fn prefix_function(pattern: &str) -> (r: Vec<usize>)
    ensures
        r@.len() == pattern.spec_bytes().len(),
        forall|i: int|
            0 <= i < r@.len() ==> is_max_border(
                pattern.spec_bytes(),
                i + 1,
                (#[trigger] r@[i]) as int,
            ),
{
    let s = pattern.as_bytes();
    let n = s.len();
    let mut pi: Vec<usize> = Vec::new();
    if n == 0 {
        return pi;
    }
    pi.push(0);
    proof {
        assert(is_border(s@, 1, 0));
    }
    let mut i: usize = 1;
    while i < n
        invariant
            1 <= i <= n,
            n == s@.len(),
            pi@.len() == i,
            forall|t: int|
                0 <= t < i ==> is_max_border(s@, t + 1, (#[trigger] pi@[t]) as int),
        decreases n - i,
    {
        proof {
            assert(is_border(s@, i as int, pi@[i - 1] as int) || pi@[i - 1] == 0);
        }
        let mut j = pi[i - 1];
        proof {
            assert(is_max_border(s@, i as int, j as int));
            assert forall|k2: int| j + 1 < k2 implies !(#[trigger] is_border(s@, i + 1, k2)) by {
                if is_border(s@, i + 1, k2) {
                    lemma_border_shrink(s@, i as int, k2);
                }
            }
        }
        while j > 0 && s[i] != s[j]
            invariant
                i < n,
                n == s@.len(),
                pi@.len() == i,
                forall|t: int|
                    0 <= t < i ==> is_max_border(s@, t + 1, (#[trigger] pi@[t]) as int),
                is_border(s@, i as int, j as int) || j == 0,
                j < i,
                forall|k2: int| j + 1 < k2 ==> !(#[trigger] is_border(s@, i + 1, k2)),
            decreases j,
        {
            let ghost j0 = j as int;
            proof {
                assert(is_max_border(s@, j0, pi@[j0 - 1] as int));
                lemma_border_of_border(s@, i as int, j0, pi@[j0 - 1] as int);
                let jn = pi@[j0 - 1] as int;
                assert forall|k2: int| jn + 1 < k2 implies !(#[trigger] is_border(s@, i + 1, k2)) by {
                    if is_border(s@, i + 1, k2) {
                        lemma_border_shrink(s@, i as int, k2);
                        if k2 == j0 + 1 {
                            assert(s@[j0] == s@[i as int]);
                        } else if k2 <= j0 {
                            lemma_border_nested(s@, i as int, j0, k2 - 1);
                        }
                    }
                }
            }
            j = pi[j - 1];
        }
        if s[i] == s[j] {
            proof {
                if j > 0 || s@[0] == s@[i as int] {
                    assert(is_border(s@, i as int, j as int));
                    lemma_border_extend(s@, i as int, j as int);
                }
                assert(is_border(s@, i + 1, j + 1));
            }
            j += 1;
            proof {
                assert(is_max_border(s@, i + 1, j as int));
            }
        } else {
            proof {
                assert(is_border(s@, i + 1, 0));
                assert forall|k2: int| 0 < k2 implies !(#[trigger] is_border(s@, i + 1, k2)) by {
                    if is_border(s@, i + 1, k2) {
                        if k2 == 1 {
                            lemma_border_shrink(s@, i as int, 1);
                        }
                    }
                }
                assert(is_max_border(s@, i + 1, 0));
            }
        }
        pi.push(j);
        i += 1;
    }
    pi
}

/// Returns start offsets at which `pattern` occurs in `text`, in
/// strictly increasing order; every reported offset is an exact
/// byte-wise occurrence, overlapping occurrences included, and an empty
/// or too-long pattern yields no occurrences.
pub fn find_all(text: &str, pattern: &str) -> (r: Vec<usize>)
    ensures
        pattern.spec_bytes().len() == 0 ==> r@.len() == 0,
        pattern.spec_bytes().len() > text.spec_bytes().len() ==> r@.len() == 0,
        forall|kk: int|
            0 <= kk < r@.len() ==> match_at(
                text.spec_bytes(),
                pattern.spec_bytes(),
                (#[trigger] r@[kk]) as int,
            ),
        forall|q: int|
            0 <= q && pattern.spec_bytes().len() > 0 && #[trigger] match_at(
                text.spec_bytes(),
                pattern.spec_bytes(),
                q,
            ) ==> exists|kk: int| 0 <= kk < r@.len() && r@[kk] == q,
        forall|k1: int, k2: int| 0 <= k1 < k2 < r@.len() ==> r@[k1] < r@[k2],
{
    let t_bytes = text.as_bytes();
    let p_bytes = pattern.as_bytes();
    let n = t_bytes.len();
    let m = p_bytes.len();
    let mut res: Vec<usize> = Vec::new();
    if m == 0 || m > n {
        return res;
    }
    let pi = prefix_function(pattern);
    let mut j: usize = 0;
    let mut i: usize = 0;
    while i < n
        invariant
            i <= n,
            1 <= m <= n,
            n == t_bytes@.len(),
            m == p_bytes@.len(),
            pi@.len() == m,
            forall|t: int|
                0 <= t < m ==> is_max_border(p_bytes@, t + 1, (#[trigger] pi@[t]) as int),
            j < m,
            sfx(t_bytes@, i as int, p_bytes@, j as int),
            forall|k2: int| j < k2 < m ==> !(#[trigger] sfx(t_bytes@, i as int, p_bytes@, k2)),
            forall|kk: int|
                0 <= kk < res@.len() ==> match_at(t_bytes@, p_bytes@, (#[trigger] res@[kk]) as int),
            forall|kk: int| 0 <= kk < res@.len() ==> (#[trigger] res@[kk]) + m <= i,
            forall|q: int|
                0 <= q && q + m <= i && #[trigger] match_at(t_bytes@, p_bytes@, q) ==> exists|kk: int|
                    0 <= kk < res@.len() && res@[kk] == q,
            forall|k1: int, k2: int| 0 <= k1 < k2 < res@.len() ==> res@[k1] < res@[k2],
        decreases n - i,
    {
        proof {
            assert forall|k2: int|
                j + 1 < k2 <= m implies !(#[trigger] sfx(t_bytes@, i + 1, p_bytes@, k2)) by {
                if sfx(t_bytes@, i + 1, p_bytes@, k2) {
                    lemma_sfx_shrink(t_bytes@, i as int, p_bytes@, k2);
                }
            }
        }
        while j > 0 && t_bytes[i] != p_bytes[j]
            invariant
                i < n,
                n == t_bytes@.len(),
                m == p_bytes@.len(),
                pi@.len() == m,
                forall|t: int|
                    0 <= t < m ==> is_max_border(p_bytes@, t + 1, (#[trigger] pi@[t]) as int),
                j < m,
                sfx(t_bytes@, i as int, p_bytes@, j as int),
                forall|k2: int|
                    j + 1 < k2 <= m ==> !(#[trigger] sfx(t_bytes@, i + 1, p_bytes@, k2)),
            decreases j,
        {
            let ghost j0 = j as int;
            proof {
                assert(is_max_border(p_bytes@, j0, pi@[j0 - 1] as int));
                lemma_sfx_border(t_bytes@, i as int, p_bytes@, j0, pi@[j0 - 1] as int);
                let jn = pi@[j0 - 1] as int;
                assert forall|k2: int|
                    jn + 1 < k2 <= m implies !(#[trigger] sfx(t_bytes@, i + 1, p_bytes@, k2)) by {
                    if sfx(t_bytes@, i + 1, p_bytes@, k2) {
                        lemma_sfx_shrink(t_bytes@, i as int, p_bytes@, k2);
                        if k2 == j0 + 1 {
                            assert(t_bytes@[i as int] == p_bytes@[j0]);
                        } else if k2 <= j0 {
                            lemma_sfx_sfx_border(t_bytes@, i as int, p_bytes@, j0, k2 - 1);
                        }
                    }
                }
            }
            j = pi[j - 1];
        }
        if t_bytes[i] == p_bytes[j] {
            proof {
                assert forall|x: int| 0 <= x < j + 1 implies t_bytes@[(i + 1) - (j + 1) + x]
                    == (#[trigger] p_bytes@[x]) by {
                    if x < j {
                        assert(t_bytes@[i - j + x] == p_bytes@[x]);
                    }
                }
                assert(sfx(t_bytes@, i + 1, p_bytes@, j + 1));
            }
            j += 1;
        } else {
            proof {
                assert(sfx(t_bytes@, i + 1, p_bytes@, 0));
            }
        }
        if j == m {
            let start = i + 1 - m;
            let ghost res0 = res@;
            proof {
                assert forall|x: int| 0 <= x < m implies t_bytes@[start + x] == (
                #[trigger] p_bytes@[x]) by {
                    assert(t_bytes@[(i + 1) - m + x] == p_bytes@[x]);
                }
                assert(match_at(t_bytes@, p_bytes@, start as int));
                assert(forall|kk: int|
                    0 <= kk < res@.len() ==> (#[trigger] res@[kk]) < i + 1 - m);
            }
            res.push(start);
            proof {
                assert forall|q: int|
                    0 <= q && q + m <= i + 1 && #[trigger] match_at(
                        t_bytes@,
                        p_bytes@,
                        q,
                    ) implies exists|kk: int| 0 <= kk < res@.len() && res@[kk] == q by {
                    if q + m <= i {
                        let kk = choose|kk: int| 0 <= kk < res0.len() && res0[kk] == q;
                        assert(res@[kk] == q);
                    } else {
                        assert(res@[res@.len() - 1] == start);
                        lemma_match_is_sfx(t_bytes@, p_bytes@, q);
                        if q != start {
                            assert(sfx(t_bytes@, i + 1, p_bytes@, m as int));
                            assert(false);
                        }
                    }
                }
                assert(is_max_border(p_bytes@, m as int, pi@[m - 1] as int));
                lemma_sfx_border(t_bytes@, i + 1, p_bytes@, m as int, pi@[m - 1] as int);
                let jn = pi@[m - 1] as int;
                assert forall|k2: int|
                    jn < k2 < m implies !(#[trigger] sfx(t_bytes@, i + 1, p_bytes@, k2)) by {
                    if sfx(t_bytes@, i + 1, p_bytes@, k2) {
                        lemma_sfx_sfx_border(t_bytes@, i + 1, p_bytes@, m as int, k2);
                    }
                }
            }
            j = pi[m - 1];
        } else {
            proof {
                assert forall|q: int|
                    0 <= q && q + m <= i + 1 && #[trigger] match_at(
                        t_bytes@,
                        p_bytes@,
                        q,
                    ) implies exists|kk: int| 0 <= kk < res@.len() && res@[kk] == q by {
                    if q + m == i + 1 {
                        lemma_match_is_sfx(t_bytes@, p_bytes@, q);
                        assert(sfx(t_bytes@, i + 1, p_bytes@, m as int));
                        if m >= 2 && j as int + 1 < m {
                            assert(false);
                        } else {
                            lemma_sfx_shrink(t_bytes@, i as int, p_bytes@, m as int);
                            assert(false);
                        }
                    }
                }
                assert forall|k2: int|
                    j < k2 < m implies !(#[trigger] sfx(t_bytes@, i + 1, p_bytes@, k2)) by {
                    if sfx(t_bytes@, i + 1, p_bytes@, k2) && k2 == j + 1 {
                        lemma_sfx_shrink(t_bytes@, i as int, p_bytes@, k2);
                    }
                }
            }
        }
        i += 1;
    }
    res
}

} // verus!
