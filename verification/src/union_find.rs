//! A disjoint-set union (union-find) with path compression and union by
//! size. The model is the sequence that maps every element to the
//! representative of its set.

use vstd::prelude::*;

verus! {

/// The number of elements below `upto` that are representatives
/// (map to themselves) in the representative sequence `rt`.
pub open spec fn count_roots(rt: Seq<usize>, upto: int) -> int
    decreases upto,
{
    if upto <= 0 {
        0
    } else {
        count_roots(rt, upto - 1) + if rt[upto - 1] == upto - 1 {
            1int
        } else {
            0int
        }
    }
}

/// The number of elements below `upto` whose representative is `r`.
#[verifier::opaque]
pub open spec fn class_count(rt: Seq<usize>, r: int, upto: int) -> int
    decreases upto,
{
    if upto <= 0 {
        0
    } else {
        class_count(rt, r, upto - 1) + if rt[upto - 1] == r {
            1int
        } else {
            0int
        }
    }
}

/// The parent links are in range and, away from the roots, strictly
/// decrease the ghost distance measure: following them terminates.
spec fn links_ok(p: Seq<usize>, d: Seq<nat>) -> bool {
    &&& p.len() == d.len()
    &&& forall|i: int| 0 <= i < p.len() ==> (#[trigger] p[i]) < p.len()
    &&& forall|i: int| 0 <= i < p.len() && (#[trigger] p[i]) != i ==> d[p[i] as int] < d[i]
}

/// Following parent links from `i` reaches `r`.
spec fn reaches(p: Seq<usize>, d: Seq<nat>, i: int, r: int) -> bool
    decreases d[i],
        when links_ok(p, d) && 0 <= i < p.len()
{
    i == r || (p[i] != i && reaches(p, d, p[i] as int, r))
}

proof fn lemma_reaches_extend(p: Seq<usize>, d: Seq<nat>, i: int, x: int)
    requires
        links_ok(p, d),
        0 <= i < p.len(),
        0 <= x < p.len(),
        reaches(p, d, i, x),
        p[x] != x,
    ensures
        reaches(p, d, i, p[x] as int),
    decreases d[i],
{
    if i == x {
        assert(reaches(p, d, p[x] as int, p[x] as int));
    } else {
        lemma_reaches_extend(p, d, p[i] as int, x);
    }
}

proof fn lemma_reaches_dist(p: Seq<usize>, d: Seq<nat>, i: int, r: int)
    requires
        links_ok(p, d),
        0 <= i < p.len(),
        reaches(p, d, i, r),
    ensures
        i == r || d[i] > d[r],
    decreases d[i],
{
    if i != r {
        lemma_reaches_dist(p, d, p[i] as int, r);
    }
}

proof fn lemma_reaches_frame(
    p1: Seq<usize>,
    d: Seq<nat>,
    p2: Seq<usize>,
    i: int,
    r: int,
)
    requires
        links_ok(p1, d),
        links_ok(p2, d),
        p1.len() == p2.len(),
        0 <= i < p1.len(),
        reaches(p1, d, i, r),
        forall|j: int| 0 <= j < p1.len() && d[j] <= d[i] ==> p2[j] == p1[j],
    ensures
        reaches(p2, d, i, r),
    decreases d[i],
{
    if i != r {
        lemma_reaches_frame(p1, d, p2, p1[i] as int, r);
    }
}

proof fn lemma_count_roots_nonneg(rt: Seq<usize>, upto: int)
    requires
        0 <= upto,
    ensures
        0 <= count_roots(rt, upto) <= upto,
    decreases upto,
{
    if upto > 0 {
        lemma_count_roots_nonneg(rt, upto - 1);
    }
}

proof fn lemma_count_roots_mono(rt: Seq<usize>, a: int, b: int)
    requires
        0 <= a <= b,
    ensures
        count_roots(rt, a) <= count_roots(rt, b),
    decreases b - a,
{
    if a < b {
        lemma_count_roots_mono(rt, a, b - 1);
    }
}

proof fn lemma_count_roots_identity(rt: Seq<usize>, upto: int)
    requires
        0 <= upto <= rt.len(),
        forall|k: int| 0 <= k < rt.len() ==> (#[trigger] rt[k]) == k,
    ensures
        count_roots(rt, upto) == upto,
    decreases upto,
{
    if upto > 0 {
        lemma_count_roots_identity(rt, upto - 1);
    }
}

proof fn lemma_class_count_identity(rt: Seq<usize>, r: int, upto: int)
    requires
        0 <= upto <= rt.len(),
        forall|k: int| 0 <= k < rt.len() ==> (#[trigger] rt[k]) == k,
        0 <= r,
    ensures
        class_count(rt, r, upto) == if r < upto {
            1int
        } else {
            0int
        },
    decreases upto,
{
    reveal(class_count);
    if upto > 0 {
        lemma_class_count_identity(rt, r, upto - 1);
    }
}

proof fn lemma_class_count_bounds(rt: Seq<usize>, r: int, upto: int)
    requires
        0 <= upto,
    ensures
        0 <= class_count(rt, r, upto) <= upto,
    decreases upto,
{
    reveal(class_count);
    if upto > 0 {
        lemma_class_count_bounds(rt, r, upto - 1);
    }
}

proof fn lemma_count_roots_drop(rt1: Seq<usize>, rt2: Seq<usize>, rq: int, upto: int)
    requires
        rt1.len() == rt2.len(),
        0 <= upto <= rt1.len(),
        0 <= rq < rt1.len(),
        rt1[rq] == rq,
        forall|k: int|
            0 <= k < rt1.len() ==> (((#[trigger] rt2[k]) == k) <==> (rt1[k] == k && k != rq)),
    ensures
        count_roots(rt2, upto) == count_roots(rt1, upto) - (if rq < upto {
            1int
        } else {
            0int
        }),
    decreases upto,
{
    if upto > 0 {
        lemma_count_roots_drop(rt1, rt2, rq, upto - 1);
    }
}

proof fn lemma_class_count_same(rt1: Seq<usize>, rt2: Seq<usize>, r: int, upto: int)
    requires
        rt1.len() == rt2.len(),
        0 <= upto <= rt1.len(),
        forall|k: int| 0 <= k < rt1.len() ==> (((#[trigger] rt2[k]) == r) <==> (rt1[k] == r)),
    ensures
        class_count(rt2, r, upto) == class_count(rt1, r, upto),
    decreases upto,
{
    reveal(class_count);
    if upto > 0 {
        lemma_class_count_same(rt1, rt2, r, upto - 1);
    }
}

proof fn lemma_class_count_merge(rt1: Seq<usize>, rt2: Seq<usize>, rp: int, rq: int, upto: int)
    requires
        rt1.len() == rt2.len(),
        0 <= upto <= rt1.len(),
        rp != rq,
        forall|k: int|
            0 <= k < rt1.len() ==> (((#[trigger] rt2[k]) == rp) <==> (rt1[k] == rp || rt1[k]
                == rq)),
    ensures
        class_count(rt2, rp, upto) == class_count(rt1, rp, upto) + class_count(rt1, rq, upto),
    decreases upto,
{
    reveal(class_count);
    if upto > 0 {
        lemma_class_count_merge(rt1, rt2, rp, rq, upto - 1);
    }
}

/// The whole internal invariant over the raw parts: links in range and
/// leading to each element's representative, representatives exactly the
/// self-parented elements, `count` the number of representatives, and
/// `size` exact at every representative.
#[verifier::opaque]
spec fn uf_ok(parent: Seq<usize>, size: Seq<usize>, count: int, rt: Seq<usize>, dist: Seq<nat>) -> bool {
    let n = rt.len() as int;
    &&& parent.len() == n
    &&& size.len() == n
    &&& dist.len() == n
    &&& links_ok(parent, dist)
    &&& forall|i: int| 0 <= i < n ==> (#[trigger] rt[i]) < n
    &&& forall|i: int| 0 <= i < n ==> (((#[trigger] rt[i]) == i) <==> parent[i] == i)
    &&& forall|i: int| 0 <= i < n ==> rt[(#[trigger] parent[i]) as int] == rt[i]
    &&& forall|i: int| 0 <= i < n ==> parent[(#[trigger] rt[i]) as int] == rt[i]
    &&& count == count_roots(rt, n)
    &&& forall|r: int|
        0 <= r < n && (#[trigger] rt[r]) == r ==> size[r] == class_count(rt, r, n)
}

/// The representative map after merging `lose`'s set into `win`'s.
spec fn merged_rt(rt: Seq<usize>, win: usize, lose: usize) -> Seq<usize> {
    Seq::new(rt.len(), |i: int| if rt[i] == lose { win } else { rt[i] })
}

/// A distance measure for the merged forest: the losing set moves one
/// level below the winning root.
spec fn merged_dist(rt: Seq<usize>, dist: Seq<nat>, win: usize, lose: usize) -> Seq<nat> {
    Seq::new(
        dist.len(),
        |i: int|
            if rt[i] == lose {
                (dist[i] + dist[win as int] + 1) as nat
            } else {
                dist[i]
            },
    )
}

/// Linking one root below another merges exactly the two sets: the whole
/// invariant is re-established on the updated parts.
proof fn lemma_union_merge(
    parent: Seq<usize>,
    size: Seq<usize>,
    count: int,
    rt: Seq<usize>,
    dist: Seq<nat>,
    win: usize,
    lose: usize,
)
    requires
        uf_ok(parent, size, count, rt, dist),
        rt.len() <= usize::MAX,
        win < rt.len(),
        lose < rt.len(),
        win != lose,
        rt[win as int] == win,
        rt[lose as int] == lose,
    ensures
        ({
            let n = rt.len() as int;
            let rt2 = merged_rt(rt, win, lose);
            let d2 = merged_dist(rt, dist, win, lose);
            &&& count >= 1
            &&& class_count(rt, win as int, n) + class_count(rt, lose as int, n) <= n
            &&& uf_ok(
                parent.update(lose as int, win),
                size.update(
                    win as int,
                    (class_count(rt, win as int, n) + class_count(rt, lose as int, n)) as usize,
                ),
                count - 1,
                rt2,
                d2,
            )
        }),
{
    reveal(uf_ok);
    let n = rt.len() as int;
    let rt2 = merged_rt(rt, win, lose);
    let d2 = merged_dist(rt, dist, win, lose);
    let p2 = parent.update(lose as int, win);
    let s2 = size.update(
        win as int,
        (class_count(rt, win as int, n) + class_count(rt, lose as int, n)) as usize,
    );
    assert forall|k: int| 0 <= k < n implies (((#[trigger] rt2[k]) == k) <==> (rt[k] == k && k
        != lose)) by {}
    assert forall|k: int| 0 <= k < n implies (((#[trigger] rt2[k]) == win) <==> (rt[k] == win
        || rt[k] == lose)) by {}
    lemma_class_count_bounds(rt, win as int, n);
    lemma_class_count_bounds(rt, lose as int, n);
    lemma_class_count_merge(rt, rt2, win as int, lose as int, n);
    lemma_class_count_bounds(rt2, win as int, n);
    lemma_count_roots_drop(rt, rt2, lose as int, n);
    lemma_count_roots_mono(rt, lose as int + 1, n);
    lemma_count_roots_nonneg(rt, lose as int);
    assert(count_roots(rt, lose as int + 1) >= 1);
    assert forall|i: int| 0 <= i < n && (#[trigger] p2[i]) != i implies d2[p2[i] as int]
        < d2[i] by {
        if i != lose as int {
            assert(rt[p2[i] as int] == rt[i]);
        }
    }
    assert(links_ok(p2, d2));
    assert forall|i: int| 0 <= i < n implies (((#[trigger] rt2[i]) == i) <==> p2[i] == i) by {}
    assert forall|i: int| 0 <= i < n implies rt2[(#[trigger] p2[i]) as int] == rt2[i] by {
        if i != lose as int {
            assert(rt[p2[i] as int] == rt[i]);
        }
    }
    assert forall|i: int| 0 <= i < n implies p2[(#[trigger] rt2[i]) as int] == rt2[i] by {}
    assert forall|r: int| 0 <= r < n && (#[trigger] rt2[r]) == r implies s2[r] == class_count(
        rt2,
        r,
        n,
    ) by {
        if r != win {
            lemma_class_count_same(rt, rt2, r, n);
        }
    }
}

/// Linking the representative of one of two distinct sets under the
/// other merges exactly those two sets: every element of either set
/// ends with the surviving representative, and every other element
/// keeps its representative.
proof fn lemma_union_post(v0: Seq<usize>, v1: Seq<usize>, p: int, q: int, win: usize, lose: usize)
    requires
        0 <= p < v0.len(),
        0 <= q < v0.len(),
        v1.len() == v0.len(),
        v0[p] != v0[q],
        win == v0[p] || win == v0[q],
        lose == (if win == v0[p] {
            v0[q]
        } else {
            v0[p]
        }),
        forall|i: int|
            0 <= i < v0.len() ==> (#[trigger] v1[i]) == (if v0[i] == lose {
                win
            } else {
                v0[i]
            }),
    ensures
        v1[p] == win,
        v1[q] == win,
        forall|i: int|
            0 <= i < v0.len() ==> (#[trigger] v1[i]) == (if v0[i] == v0[p] || v0[i] == v0[q] {
                v1[p]
            } else {
                v0[i]
            }),
{
}

/// At a representative, the stored size is exactly the cardinality of
/// its set.
proof fn lemma_size_at_root(uf: UnionFind, a: usize)
    requires
        uf.wf(),
        a < uf@.len(),
        uf@[a as int] == a,
    ensures
        uf.size_seq().len() == uf@.len(),
        uf.size_seq()[a as int] == class_count(uf@, a as int, uf@.len() as int),
{
    reveal(uf_ok);
}

/// Some measure strictly decreases along every non-trivial link of
/// `parent`: following links from any element cannot cycle, so every
/// chain terminates at a self-parented root.
pub open spec fn parent_links_terminate(parent: Seq<usize>) -> bool {
    exists|d: Seq<nat>|
        (#[trigger] d.len()) == parent.len() && (forall|i: int|
            0 <= i < parent.len() && (#[trigger] parent[i]) != i ==> d[parent[i] as int] < d[i])
}

/// Tracks a partition of `n` elements into disjoint sets. `parent` holds
/// the link forest, `size` the cardinality of each root's set, `count`
/// the number of sets; `rt` is the ghost map from each element to its
/// representative and `dist` a ghost measure that decreases along links.
pub struct UnionFind {
    parent: Vec<usize>,
    size: Vec<usize>,
    count: usize,
    rt: Ghost<Seq<usize>>,
    dist: Ghost<Seq<nat>>,
}

impl View for UnionFind {
    type V = Seq<usize>;

    closed spec fn view(&self) -> Seq<usize> {
        self.rt@
    }
}

impl UnionFind {
    /// Internal invariant: links stay inside the structure and lead to
    /// the representative of each element, representatives are exactly
    /// the self-parented elements, `count` is the number of
    /// representatives, and `size` is exact at every representative.
    pub closed spec fn wf(self) -> bool {
        uf_ok(self.parent@, self.size@, self.count as int, self.rt@, self.dist@)
    }

    /// The number of disjoint sets.
    pub closed spec fn num_sets(self) -> int {
        self.count as int
    }

    /// The stored per-representative set sizes.
    spec fn size_seq(self) -> Seq<usize> {
        self.size@
    }

    /// The parent-link array, as `get_parents` returns it.
    pub closed spec fn parents_view(self) -> Seq<usize> {
        self.parent@
    }

    /// Creates `n` elements, each in its own singleton set.
    pub fn new(n: usize) -> (r: Self)
        ensures
            r.wf(),
            r@.len() == n,
            forall|i: int| 0 <= i < n ==> (#[trigger] r@[i]) == i,
            r.num_sets() == n,
    {
        let mut parent: Vec<usize> = Vec::new();
        let mut size: Vec<usize> = Vec::new();
        let mut k: usize = 0;
        while k < n
            invariant
                k <= n,
                parent@.len() == k,
                size@.len() == k,
                forall|t: int| 0 <= t < k ==> (#[trigger] parent@[t]) == t,
                forall|t: int| 0 <= t < k ==> (#[trigger] size@[t]) == 1,
            decreases n - k,
        {
            parent.push(k);
            size.push(1);
            k += 1;
        }
        let ghost rt = parent@;
        let ghost dist = Seq::new(n as nat, |i: int| 0nat);
        let r = UnionFind { parent, size, count: n, rt: Ghost(rt), dist: Ghost(dist) };
        proof {
            reveal(uf_ok);
            lemma_count_roots_identity(rt, n as int);
            assert forall|q: int| 0 <= q < n && (#[trigger] rt[q]) == q implies r.size@[q]
                == class_count(rt, q, n as int) by {
                lemma_class_count_identity(rt, q, n as int);
            }
        }
        r
    }

    /// Returns the representative of `p`'s set, relinking every node on
    /// the walked path directly to that representative (path
    /// compression). The partition itself does not change.
    #[verifier::rlimit(60)]
    pub fn find(&mut self, p: usize) -> (r: usize)
        requires
            old(self).wf(),
            p < old(self)@.len(),
        ensures
            final(self).wf(),
            final(self)@ == old(self)@,
            final(self).num_sets() == old(self).num_sets(),
            r == old(self)@[p as int],
            r < final(self)@.len(),
            final(self)@[r as int] == r,
            final(self).parents_view().len() == final(self)@.len(),
            final(self).parents_view()[p as int] == r,
            final(self).parents_view()[r as int] == r,
    {
        let ghost n = self.rt@.len() as int;
        let mut root = p;
        proof {
            reveal(uf_ok);
            assert(reaches(self.parent@, self.dist@, p as int, p as int));
        }
        while root != self.parent[root]
            invariant
                self == old(self),
                self.wf(),
                self.parent@.len() == self.rt@.len(),
                self.dist@.len() == self.rt@.len(),
                links_ok(self.parent@, self.dist@),
                p < self.rt@.len(),
                root < self.rt@.len(),
                self.rt@[root as int] == self.rt@[p as int],
                reaches(self.parent@, self.dist@, p as int, root as int),
            decreases self.dist@[root as int],
        {
            proof {
                reveal(uf_ok);
                lemma_reaches_extend(self.parent@, self.dist@, p as int, root as int);
            }
            root = self.parent[root];
        }
        proof {
            reveal(uf_ok);
            // a self-parented node is its own representative, so root is
            // exactly the representative of p
            assert(self.rt@[root as int] == root);
        }
        let mut cur = p;
        while cur != root
            invariant
                self.rt@ == old(self).rt@,
                self.dist@ == old(self).dist@,
                self.size@ == old(self).size@,
                self.count == old(self).count,
                self.wf(),
                self.parent@.len() == self.rt@.len(),
                self.dist@.len() == self.rt@.len(),
                links_ok(self.parent@, self.dist@),
                p < self.rt@.len(),
                root < self.rt@.len(),
                cur < self.rt@.len(),
                self.rt@[root as int] == root,
                root == self.rt@[p as int],
                self.rt@[cur as int] == root,
                cur == p || self.parent@[p as int] == root,
                self.parent@[root as int] == root,
                reaches(self.parent@, self.dist@, cur as int, root as int),
            decreases self.dist@[cur as int],
        {
            let ghost p1 = self.parent@;
            let ghost d = self.dist@;
            proof {
                reveal(uf_ok);
                lemma_reaches_dist(p1, d, cur as int, root as int);
            }
            let next = self.parent[cur];
            self.parent[cur] = root;
            proof {
                let p2 = self.parent@;
                assert(links_ok(p2, d));
                assert(reaches(p1, d, next as int, root as int));
                lemma_reaches_frame(p1, d, p2, next as int, root as int);
            }
            cur = next;
        }
        proof {
            reveal(uf_ok);
            assert(self.parent@[p as int] == root);
        }
        root
    }

    /// Attaches the representative `lose` under the representative
    /// `win`, merging their two sets.
    #[verifier::rlimit(100)]
    fn link(&mut self, win: usize, lose: usize)
        requires
            old(self).wf(),
            win < old(self)@.len(),
            lose < old(self)@.len(),
            win != lose,
            old(self)@[win as int] == win,
            old(self)@[lose as int] == lose,
        ensures
            final(self).wf(),
            final(self)@.len() == old(self)@.len(),
            final(self).num_sets() == old(self).num_sets() - 1,
            forall|i: int|
                0 <= i < old(self)@.len() ==> (#[trigger] final(self)@[i]) == (if old(self)@[i]
                    == lose {
                    win
                } else {
                    old(self)@[i]
                }),
    {
        let ghost rt1 = self.rt@;
        let n_elems = self.parent.len();
        proof {
            reveal(uf_ok);
            assert(self.size@.len() == rt1.len());
            assert(self.size@[win as int] == class_count(rt1, win as int, rt1.len() as int));
            assert(self.size@[lose as int] == class_count(rt1, lose as int, rt1.len() as int));
            lemma_union_merge(self.parent@, self.size@, self.count as int, rt1, self.dist@, win, lose);
        }
        let sp = self.size[win];
        let sq = self.size[lose];
        let new_size = sp + sq;
        self.size[win] = new_size;
        self.parent[lose] = win;
        proof {
            self.rt@ = merged_rt(rt1, win, lose);
            self.dist@ = merged_dist(rt1, self.dist@, win, lose);
        }
        self.count = self.count - 1;
        proof {
            assert(self.wf());
        }
    }

    /// Merges the two distinct sets whose representatives are given,
    /// by size, ties and larger-or-equal sizes favouring `p`'s set.
    #[verifier::rlimit(100)]
    fn link_sets(&mut self, p: usize, q: usize, root_p: usize, root_q: usize)
        requires
            old(self).wf(),
            p < old(self)@.len(),
            q < old(self)@.len(),
            root_p == old(self)@[p as int],
            root_q == old(self)@[q as int],
            root_p < old(self)@.len(),
            root_q < old(self)@.len(),
            old(self)@[root_p as int] == root_p,
            old(self)@[root_q as int] == root_q,
            root_p != root_q,
        ensures
            final(self).wf(),
            final(self)@.len() == old(self)@.len(),
            final(self).num_sets() == old(self).num_sets() - 1,
            final(self)@[p as int] == (if class_count(
                old(self)@,
                old(self)@[p as int] as int,
                old(self)@.len() as int,
            ) < class_count(old(self)@, old(self)@[q as int] as int, old(self)@.len() as int) {
                old(self)@[q as int]
            } else {
                old(self)@[p as int]
            }),
            forall|i: int|
                0 <= i < old(self)@.len() ==> (#[trigger] final(self)@[i]) == (if old(self)@[i]
                    == old(self)@[p as int] || old(self)@[i] == old(self)@[q as int] {
                    final(self)@[p as int]
                } else {
                    old(self)@[i]
                }),
    {
        proof {
            lemma_size_at_root(*self, root_p);
            lemma_size_at_root(*self, root_q);
        }
        let sp = self.size[root_p];
        let sq = self.size[root_q];
        let (win, lose) = if sp < sq {
            (root_q, root_p)
        } else {
            (root_p, root_q)
        };
        self.link(win, lose);
        proof {
            lemma_union_post(old(self)@, self@, p as int, q as int, win, lose);
        }
    }

    /// Merges the sets containing `p` and `q` and reports whether the
    /// partition changed: exactly those two sets are joined — every
    /// element of either ends with the surviving representative and all
    /// other elements keep theirs. The smaller set's representative
    /// yields to the larger set's; on ties, and whenever `p`'s set is at
    /// least as large, `p`'s representative survives.
    #[verifier::rlimit(100)]
    pub fn union(&mut self, p: usize, q: usize) -> (merged: bool)
        requires
            old(self).wf(),
            p < old(self)@.len(),
            q < old(self)@.len(),
        ensures
            final(self).wf(),
            final(self)@.len() == old(self)@.len(),
            merged == (old(self)@[p as int] != old(self)@[q as int]),
            final(self).num_sets() == old(self).num_sets() - (if merged {
                1int
            } else {
                0int
            }),
            merged ==> final(self)@[p as int] == (if class_count(
                old(self)@,
                old(self)@[p as int] as int,
                old(self)@.len() as int,
            ) < class_count(old(self)@, old(self)@[q as int] as int, old(self)@.len() as int) {
                old(self)@[q as int]
            } else {
                old(self)@[p as int]
            }),
            forall|i: int|
                0 <= i < old(self)@.len() ==> (#[trigger] final(self)@[i]) == (if old(self)@[i]
                    == old(self)@[p as int] || old(self)@[i] == old(self)@[q as int] {
                    final(self)@[p as int]
                } else {
                    old(self)@[i]
                }),
    {
        let root_p = self.find(p);
        let root_q = self.find(q);
        if root_p == root_q {
            proof {
                assert forall|i: int|
                    0 <= i < old(self)@.len() implies (#[trigger] self@[i]) == (if old(self)@[i]
                    == old(self)@[p as int] || old(self)@[i] == old(self)@[q as int] {
                    self@[p as int]
                } else {
                    old(self)@[i]
                }) by {}
            }
            return false;
        }
        self.link_sets(p, q, root_p, root_q);
        true
    }

    /// Whether `p` and `q` are in the same set.
    #[verifier::rlimit(60)]
    pub fn connected(&mut self, p: usize, q: usize) -> (r: bool)
        requires
            old(self).wf(),
            p < old(self)@.len(),
            q < old(self)@.len(),
        ensures
            final(self).wf(),
            final(self)@ == old(self)@,
            final(self).num_sets() == old(self).num_sets(),
            r == (old(self)@[p as int] == old(self)@[q as int]),
    {
        let a = self.find(p);
        let b = self.find(q);
        a == b
    }

    /// The current number of disjoint sets.
    pub fn count(&self) -> (r: usize)
        requires
            self.wf(),
        ensures
            r == self.num_sets(),
    {
        self.count
    }

    /// A copy of the parent-link array: every link stays inside the
    /// structure and preserves the representative of its element, the
    /// self-parented entries are exactly the representatives, and no
    /// chain of links can cycle, so following links from any element
    /// terminates at its representative's root.
    pub fn get_parents(&self) -> (r: Vec<usize>)
        requires
            self.wf(),
        ensures
            r@ == self.parents_view(),
            r@.len() == self@.len(),
            forall|i: int| 0 <= i < self@.len() ==> (#[trigger] r@[i]) < self@.len(),
            forall|i: int| 0 <= i < self@.len() ==> self@[(#[trigger] r@[i]) as int] == self@[i],
            forall|i: int| 0 <= i < self@.len() ==> (((#[trigger] r@[i]) == i) <==> self@[i] == i),
            parent_links_terminate(r@),
    {
        proof {
            reveal(uf_ok);
        }
        let mut out: Vec<usize> = Vec::new();
        let mut k: usize = 0;
        while k < self.parent.len()
            invariant
                self.wf(),
                self.parent@.len() == self.rt@.len(),
                k <= self.parent@.len(),
                out@.len() == k,
                forall|t: int| 0 <= t < k ==> (#[trigger] out@[t]) == self.parent@[t],
            decreases self.parent@.len() - k,
        {
            out.push(self.parent[k]);
            k += 1;
        }
        proof {
            reveal(uf_ok);
            assert(out@ =~= self.parent@);
            let d = self.dist@;
            assert(d.len() == out@.len() && (forall|i: int|
                0 <= i < out@.len() && (#[trigger] out@[i]) != i ==> d[out@[i] as int] < d[i]));
            assert(parent_links_terminate(out@));
        }
        out
    }
}

/// The number of sets is always the number of distinct representatives
/// in the model.
pub proof fn lemma_count_is_roots(uf: UnionFind)
    requires
        uf.wf(),
    ensures
        uf.num_sets() == count_roots(uf@, uf@.len() as int),
{
    reveal(uf_ok);
}

/// `find` is idempotent: the representative of a representative is
/// itself.
pub proof fn lemma_find_idempotent(uf: UnionFind, p: int)
    requires
        uf.wf(),
        0 <= p < uf@.len(),
    ensures
        uf@[uf@[p] as int] == uf@[p],
{
    reveal(uf_ok);
}

/// Set membership is an equivalence: two elements are connected exactly
/// when they share a representative, which is reflexive, symmetric and
/// transitive.
pub proof fn lemma_connected_equivalence(uf: UnionFind, p: int, q: int, r: int)
    requires
        uf.wf(),
        0 <= p < uf@.len(),
        0 <= q < uf@.len(),
        0 <= r < uf@.len(),
    ensures
        uf@[p] == uf@[p],
        (uf@[p] == uf@[q]) ==> (uf@[q] == uf@[p]),
        (uf@[p] == uf@[q] && uf@[q] == uf@[r]) ==> (uf@[p] == uf@[r]),
{
}

} // verus!
