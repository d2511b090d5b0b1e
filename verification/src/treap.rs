//! A treap: a binary search tree over `i64` keys balanced by random
//! priorities, storing duplicate keys as per-node multiplicities. The
//! model is the multiset of stored keys.

use vstd::prelude::*;

verus! {

broadcast use {
    vstd::multiset::group_multiset_axioms,
    vstd::multiset::group_multiset_properties,
    vstd::seq_lib::group_to_multiset_ensures,
};

use vstd::multiset::Multiset;
use vstd::relations::{sorted_by, total_ordering};
use vstd::seq_lib::{lemma_multiset_commutative, lemma_sorted_unique};

/// One tree node: a key with its multiplicity, a balancing priority,
/// the owned children, and the cached subtree size.
struct Node {
    key: i64,
    priority: u64,
    left: Option<Box<Node>>,
    right: Option<Box<Node>>,
    size: usize,
    count: usize,
}

/// `count` occurrences of `key` as a multiset.
spec fn key_ms(key: i64, count: nat) -> Multiset<i64>
    decreases count,
{
    if count == 0 {
        Multiset::empty()
    } else {
        key_ms(key, (count - 1) as nat).insert(key)
    }
}

proof fn lemma_key_ms_count(key: i64, count: nat, k: i64)
    ensures
        key_ms(key, count).count(k) == if k == key {
            count
        } else {
            0
        },
    decreases count,
{
    if count > 0 {
        lemma_key_ms_count(key, (count - 1) as nat, k);
    }
}

/// The multiset of keys stored in an optional subtree.
spec fn ms_of(node: &Option<Box<Node>>) -> Multiset<i64>
    decreases node,
{
    match node {
        None => Multiset::empty(),
        Some(n) => ms_of(&n.left).add(key_ms(n.key, n.count as nat)).add(ms_of(&n.right)),
    }
}

/// The cached size of an optional subtree.
spec fn size_of(node: &Option<Box<Node>>) -> nat {
    match node {
        None => 0,
        Some(n) => n.size as nat,
    }
}

/// The priority at the root of an optional subtree; an empty subtree
/// ranks below every node.
spec fn prio_of(node: &Option<Box<Node>>) -> u64 {
    match node {
        None => 0,
        Some(n) => n.priority,
    }
}

/// Every key of `m` is below `bound`.
spec fn keys_below(m: Multiset<i64>, bound: i64) -> bool {
    forall|k: i64| (#[trigger] m.count(k)) > 0 ==> k < bound
}

/// Every key of `m` is above `bound`.
spec fn keys_above(m: Multiset<i64>, bound: i64) -> bool {
    forall|k: i64| (#[trigger] m.count(k)) > 0 ==> k > bound
}

/// Structural invariant: positive multiplicities, consistent cached
/// sizes, and the search-tree ordering — keys to the left are smaller,
/// keys to the right are larger.
spec fn tree_ok(node: &Option<Box<Node>>) -> bool
    decreases node,
{
    match node {
        None => true,
        Some(n) => {
            &&& n.count >= 1
            &&& n.size == size_of(&n.left) + n.count + size_of(&n.right)
            &&& keys_below(ms_of(&n.left), n.key)
            &&& keys_above(ms_of(&n.right), n.key)
            &&& prio_of(&n.left) <= n.priority
            &&& prio_of(&n.right) <= n.priority
            &&& tree_ok(&n.left)
            &&& tree_ok(&n.right)
        },
    }
}

proof fn lemma_size_is_ms_len(node: &Option<Box<Node>>)
    requires
        tree_ok(node),
    ensures
        size_of(node) == ms_of(node).len(),
    decreases node,
{
    match node {
        None => {},
        Some(n) => {
            lemma_size_is_ms_len(&n.left);
            lemma_size_is_ms_len(&n.right);
            lemma_key_ms_len(n.key, n.count as nat);
        },
    }
}

proof fn lemma_key_ms_len(key: i64, count: nat)
    ensures
        key_ms(key, count).len() == count,
        count > 0 ==> key_ms(key, count).contains(key),
    decreases count,
{
    if count > 0 {
        lemma_key_ms_len(key, (count - 1) as nat);
    }
}

impl Node {
    fn new(key: i64, priority: u64) -> (r: Self)
        ensures
            r.count == 1,
            r.size == 1,
            r.left is None,
            r.right is None,
            r.key == key,
            r.priority == priority,
    {
        Node { key, priority, left: None, right: None, size: 1, count: 1 }
    }
}

/// Advances a splitmix-style generator state and returns the next
/// pseudo-random value; the result is a pure function of the state.
fn splitmix64(x: &mut u64) -> (r: u64)
    ensures
        *final(x) == (*old(x)).wrapping_add(0x9E3779B97F4A7C15),
{
    *x = x.wrapping_add(0x9E3779B97F4A7C15);
    let mut z = *x;
    z = (z ^ (z >> 30)).wrapping_mul(0xBF58476D1CE4E5B9);
    z = (z ^ (z >> 27)).wrapping_mul(0x94D049BB133111EB);
    z ^ (z >> 31)
}

/// The keys are in non-decreasing order.
pub open spec fn sorted(s: Seq<i64>) -> bool {
    forall|a: int, b: int| 0 <= a < b < s.len() ==> s[a] <= s[b]
}

/// The stored keys of an optional subtree, in symmetric order with
/// multiplicities.
spec fn seq_of(node: &Option<Box<Node>>) -> Seq<i64>
    decreases node,
{
    match node {
        None => Seq::empty(),
        Some(n) => seq_of(&n.left) + Seq::new(n.count as nat, |i: int| n.key) + seq_of(&n.right),
    }
}

proof fn lemma_repeat_ms(key: i64, count: nat)
    ensures
        Seq::new(count, |i: int| key).to_multiset() =~= key_ms(key, count),
    decreases count,
{
    if count == 0 {
        assert(Seq::new(0, |i: int| key) =~= Seq::<i64>::empty());
    } else {
        lemma_repeat_ms(key, (count - 1) as nat);
        assert(Seq::new(count, |i: int| key) =~= Seq::new((count - 1) as nat, |i: int| key).push(
            key,
        ));
    }
}

proof fn lemma_seq_of_ms(node: &Option<Box<Node>>)
    ensures
        seq_of(node).to_multiset() =~= ms_of(node),
        seq_of(node).len() == ms_of(node).len(),
    decreases node,
{
    match node {
        None => {
            assert(seq_of(node) =~= Seq::<i64>::empty());
        },
        Some(n) => {
            lemma_seq_of_ms(&n.left);
            lemma_seq_of_ms(&n.right);
            lemma_repeat_ms(n.key, n.count as nat);
            let mid = Seq::new(n.count as nat, |i: int| n.key);
            lemma_multiset_commutative(seq_of(&n.left) + mid, seq_of(&n.right));
            lemma_multiset_commutative(seq_of(&n.left), mid);
            lemma_key_ms_len(n.key, n.count as nat);
        },
    }
}

proof fn lemma_seq_of_sorted(node: &Option<Box<Node>>)
    requires
        tree_ok(node),
    ensures
        sorted(seq_of(node)),
        forall|a: int| 0 <= a < seq_of(node).len() ==> ms_of(node).contains(#[trigger] seq_of(node)[a]),
    decreases node,
{
    match node {
        None => {},
        Some(n) => {
            lemma_seq_of_sorted(&n.left);
            lemma_seq_of_sorted(&n.right);
            lemma_seq_of_ms(node);
            let l = seq_of(&n.left);
            let mid = Seq::new(n.count as nat, |i: int| n.key);
            let r = seq_of(&n.right);
            let whole = seq_of(node);
            assert(whole =~= l + mid + r);
            assert forall|a: int| 0 <= a < whole.len() implies ms_of(node).contains(
                #[trigger] whole[a],
            ) by {
                assert(whole.to_multiset().contains(whole[a]));
            }
            assert forall|a: int, b: int| 0 <= a < b < whole.len() implies whole[a] <= whole[b] by {
                if a < l.len() {
                    assert(l.to_multiset().contains(l[a]));
                    assert(whole[a] < n.key);
                }
                if a >= l.len() + mid.len() {
                    let ra = a - l.len() - mid.len();
                    assert(r.to_multiset().contains(r[ra]));
                    assert(whole[a] > n.key);
                }
                if b < l.len() {
                    assert(l.to_multiset().contains(l[b]));
                    assert(whole[b] < n.key);
                }
                if b >= l.len() + mid.len() {
                    let rb = b - l.len() - mid.len();
                    assert(r.to_multiset().contains(r[rb]));
                    assert(whole[b] > n.key);
                }
            }
        },
    }
}

/// An ordered multiset of `i64` keys with randomized balancing; the
/// priority source is a per-instance seeded generator, so behaviour is
/// reproducible per structure.
pub struct Treap {
    root: Option<Box<Node>>,
    seed: u64,
}

impl View for Treap {
    type V = Multiset<i64>;

    closed spec fn view(&self) -> Multiset<i64> {
        ms_of(&self.root)
    }
}

impl Treap {
    /// Internal invariant: consistent cached sizes and the binary
    /// search ordering of keys.
    pub closed spec fn wf(self) -> bool {
        tree_ok(&self.root)
    }

    /// Creates an empty treap with the default priority seed.
    pub fn new() -> (r: Self)
        ensures
            r.wf(),
            r@ == Multiset::<i64>::empty(),
    {
        Treap { root: None, seed: 0x9E3779B97F4A7C15 }
    }

    /// Creates an empty treap whose priority generator starts from
    /// `seed`, for reproducible tests.
    pub fn with_seed(seed: u64) -> (r: Self)
        ensures
            r.wf(),
            r@ == Multiset::<i64>::empty(),
    {
        Treap { root: None, seed }
    }

    /// The number of stored keys, duplicates included.
    pub fn len(&self) -> (r: usize)
        requires
            self.wf(),
        ensures
            r == self@.len(),
    {
        proof {
            lemma_size_is_ms_len(&self.root);
        }
        match &self.root {
            None => 0,
            Some(n) => n.size,
        }
    }

    /// Whether no key is stored.
    pub fn is_empty(&self) -> (r: bool)
        requires
            self.wf(),
        ensures
            r == (self@.len() == 0),
    {
        proof {
            lemma_size_is_ms_len(&self.root);
        }
        match &self.root {
            None => true,
            Some(n) => false,
        }
    }

    /// Whether at least one occurrence of `key` is stored.
    pub fn contains(&self, key: i64) -> (r: bool)
        requires
            self.wf(),
        ensures
            r == self@.contains(key),
    {
        Self::contains_rec(&self.root, key)
    }

    fn contains_rec(node: &Option<Box<Node>>, key: i64) -> (r: bool)
        requires
            tree_ok(node),
        ensures
            r == ms_of(node).contains(key),
        decreases node,
    {
        match node {
            None => false,
            Some(n) => {
                proof {
                    lemma_key_ms_count(n.key, n.count as nat, key);
                }
                if key < n.key {
                    proof {
                        assert(!ms_of(&n.right).contains(key));
                        assert(!key_ms(n.key, n.count as nat).contains(key));
                    }
                    Self::contains_rec(&n.left, key)
                } else if key > n.key {
                    proof {
                        assert(!ms_of(&n.left).contains(key));
                        assert(!key_ms(n.key, n.count as nat).contains(key));
                    }
                    Self::contains_rec(&n.right, key)
                } else {
                    proof {
                        lemma_key_ms_len(n.key, n.count as nat);
                        assert(key_ms(n.key, n.count as nat).contains(key));
                    }
                    true
                }
            },
        }
    }

    /// Inserts one occurrence of `key`: the stored multiset gains that
    /// key and nothing else changes.
    pub fn insert(&mut self, key: i64)
        requires
            old(self).wf(),
            old(self)@.len() < usize::MAX,
        ensures
            final(self).wf(),
            final(self)@ == old(self)@.insert(key),
            final(self)@.len() == old(self)@.len() + 1,
    {
        proof {
            lemma_size_is_ms_len(&self.root);
        }
        let prio = splitmix64(&mut self.seed);
        let taken = self.root.take();
        self.root = Self::insert_rec(taken, key, prio);
    }

    fn insert_rec(node: Option<Box<Node>>, key: i64, prio: u64) -> (r: Option<Box<Node>>)
        requires
            tree_ok(&node),
            size_of(&node) < usize::MAX,
        ensures
            r is Some,
            tree_ok(&r),
            ms_of(&r) == ms_of(&node).insert(key),
            size_of(&r) == size_of(&node) + 1,
            prio_of(&r) <= (if prio_of(&node) >= prio {
                prio_of(&node)
            } else {
                prio
            }),
            prio_of(&r.unwrap().left) <= prio_of(&node),
            prio_of(&r.unwrap().right) <= prio_of(&node),
        decreases node,
    {
        match node {
            None => {
                let r = Some(Box::new(Node::new(key, prio)));
                proof {
                    assert forall|k: i64| ms_of(&r).count(k) == ms_of(&node).insert(key).count(
                        k,
                    ) by {
                        lemma_key_ms_count(key, 1nat, k);
                    }
                    assert(ms_of(&r) =~= ms_of(&node).insert(key));
                }
                r
            },
            Some(mut boxed) => {
                proof {
                    lemma_key_ms_count(boxed.key, boxed.count as nat, key);
                }
                if key == boxed.key {
                    let ghost old_node = Some(boxed);
                    boxed.count += 1;
                    boxed.size += 1;
                    let r = Some(boxed);
                    proof {
                        assert forall|k: i64| ms_of(&r).count(k) == ms_of(&old_node).insert(
                            key,
                        ).count(k) by {
                            let b = old_node.unwrap();
                            lemma_key_ms_count(b.key, b.count as nat, k);
                            lemma_key_ms_count(b.key, (b.count + 1) as nat, k);
                        }
                        assert(ms_of(&r) =~= ms_of(&old_node).insert(key));
                    }
                    r
                } else if key < boxed.key {
                    let ghost old_node = Some(boxed);
                    let taken = boxed.left.take();
                    boxed.left = Self::insert_rec(taken, key, prio);
                    proof {
                        assert forall|k: i64| (#[trigger] ms_of(&boxed.left).count(k))
                            > 0 implies k < boxed.key by {
                            if k != key {
                                assert(ms_of(&taken).contains(k));
                            }
                        }
                        assert(keys_below(ms_of(&boxed.left), boxed.key));
                    }
                    let lp = match &boxed.left {
                        Some(l) => l.priority,
                        None => 0,
                    };
                    proof {
                        assert(lp == prio_of(&boxed.left));
                        assert(prio_of(&taken) <= old_node.unwrap().priority);
                    }
                    let r = if lp > boxed.priority {
                        Some(Self::rotate_right(boxed))
                    } else {
                        boxed.size += 1;
                        Some(boxed)
                    };
                    proof {
                        assert(ms_of(&r) =~= ms_of(&old_node).insert(key));
                    }
                    r
                } else {
                    let ghost old_node = Some(boxed);
                    let taken = boxed.right.take();
                    boxed.right = Self::insert_rec(taken, key, prio);
                    proof {
                        assert forall|k: i64| (#[trigger] ms_of(&boxed.right).count(k))
                            > 0 implies k > boxed.key by {
                            if k != key {
                                assert(ms_of(&taken).contains(k));
                            }
                        }
                        assert(keys_above(ms_of(&boxed.right), boxed.key));
                    }
                    let rp = match &boxed.right {
                        Some(r) => r.priority,
                        None => 0,
                    };
                    proof {
                        assert(rp == prio_of(&boxed.right));
                        assert(prio_of(&taken) <= old_node.unwrap().priority);
                    }
                    let r = if rp > boxed.priority {
                        Some(Self::rotate_left(boxed))
                    } else {
                        boxed.size += 1;
                        Some(boxed)
                    };
                    proof {
                        assert(ms_of(&r) =~= ms_of(&old_node).insert(key));
                    }
                    r
                }
            },
        }
    }

    fn rotate_right(mut y: Box<Node>) -> (r: Box<Node>)
        requires
            y.left is Some,
            tree_ok(&y.left),
            tree_ok(&y.right),
            y.count >= 1,
            keys_below(ms_of(&y.left), y.key),
            keys_above(ms_of(&y.right), y.key),
            prio_of(&y.left) >= y.priority,
            prio_of(&y.right) <= y.priority,
            prio_of(&y.left.unwrap().right) <= y.priority,
            size_of(&y.left) + y.count + size_of(&y.right) <= usize::MAX,
        ensures
            tree_ok(&Some(r)),
            ms_of(&Some(r)) == ms_of(&y.left).add(key_ms(y.key, y.count as nat)).add(
                ms_of(&y.right),
            ),
            r.size == size_of(&y.left) + y.count + size_of(&y.right),
            r.priority == prio_of(&y.left),
            prio_of(&r.left) == prio_of(&y.left.unwrap().left),
            prio_of(&r.right) == y.priority,
    {
        let ghost y0 = y;
        let mut x = y.left.take().unwrap();
        let ghost xin = x;
        y.left = x.right.take();
        proof {
            assert forall|k: i64| (#[trigger] ms_of(&y.left).count(k)) > 0 implies k
                < y.key by {
                assert(ms_of(&y0.left).contains(k));
            }
            assert(keys_below(ms_of(&y.left), y.key));
            lemma_key_ms_len(x.key, x.count as nat);
            assert(ms_of(&y0.left).contains(x.key));
            assert(x.key < y.key);
        }
        y.size = Self::opt_size(&y.left) + y.count + Self::opt_size(&y.right);
        let new_size = x.count + Self::opt_size(&x.left) + y.size;
        proof {
            assert(tree_ok(&Some(y)));
        }
        x.right = Some(y);
        x.size = new_size;
        proof {
            assert forall|k: i64| (#[trigger] ms_of(&x.right).count(k)) > 0 implies k
                > x.key by {
                lemma_key_ms_count(y0.key, y0.count as nat, k);
                assert(y0.left == Some(xin));
                assert(tree_ok(&Some(xin)));
                if ms_of(&xin.right).contains(k) {
                    assert(k > xin.key);
                }
                if ms_of(&y0.right).contains(k) {
                    assert(k > y0.key);
                }
            }
            assert(keys_above(ms_of(&x.right), x.key));
            assert(tree_ok(&Some(x)));
            assert forall|k: i64| ms_of(&Some(x)).count(k) == ms_of(&y0.left).add(
                key_ms(y0.key, y0.count as nat),
            ).add(ms_of(&y0.right)).count(k) by {
                lemma_key_ms_count(y0.key, y0.count as nat, k);
                lemma_key_ms_count(xin.key, xin.count as nat, k);
            }
            assert(ms_of(&Some(x)) =~= ms_of(&y0.left).add(key_ms(y0.key, y0.count as nat)).add(
                ms_of(&y0.right),
            ));
        }
        x
    }

    fn rotate_left(mut x: Box<Node>) -> (r: Box<Node>)
        requires
            x.right is Some,
            tree_ok(&x.left),
            tree_ok(&x.right),
            x.count >= 1,
            keys_below(ms_of(&x.left), x.key),
            keys_above(ms_of(&x.right), x.key),
            prio_of(&x.right) >= x.priority,
            prio_of(&x.left) <= x.priority,
            prio_of(&x.right.unwrap().left) <= x.priority,
            size_of(&x.left) + x.count + size_of(&x.right) <= usize::MAX,
        ensures
            tree_ok(&Some(r)),
            ms_of(&Some(r)) == ms_of(&x.left).add(key_ms(x.key, x.count as nat)).add(
                ms_of(&x.right),
            ),
            r.size == size_of(&x.left) + x.count + size_of(&x.right),
            r.priority == prio_of(&x.right),
            prio_of(&r.right) == prio_of(&x.right.unwrap().right),
            prio_of(&r.left) == x.priority,
    {
        let ghost x0 = x;
        let mut y = x.right.take().unwrap();
        let ghost yin = y;
        x.right = y.left.take();
        proof {
            assert forall|k: i64| (#[trigger] ms_of(&x.right).count(k)) > 0 implies k
                > x.key by {
                assert(ms_of(&x0.right).contains(k));
            }
            assert(keys_above(ms_of(&x.right), x.key));
            lemma_key_ms_len(y.key, y.count as nat);
            assert(ms_of(&x0.right).contains(y.key));
            assert(y.key > x.key);
        }
        x.size = Self::opt_size(&x.left) + x.count + Self::opt_size(&x.right);
        let new_size = y.count + Self::opt_size(&y.right) + x.size;
        proof {
            assert(tree_ok(&Some(x)));
        }
        y.left = Some(x);
        y.size = new_size;
        proof {
            assert forall|k: i64| (#[trigger] ms_of(&y.left).count(k)) > 0 implies k
                < y.key by {
                lemma_key_ms_count(x0.key, x0.count as nat, k);
                assert(x0.right == Some(yin));
                assert(tree_ok(&Some(yin)));
                if ms_of(&yin.left).contains(k) {
                    assert(k < yin.key);
                }
                if ms_of(&x0.left).contains(k) {
                    assert(k < x0.key);
                }
            }
            assert(keys_below(ms_of(&y.left), y.key));
            assert(tree_ok(&Some(y)));
            assert forall|k: i64| ms_of(&Some(y)).count(k) == ms_of(&x0.left).add(
                key_ms(x0.key, x0.count as nat),
            ).add(ms_of(&x0.right)).count(k) by {
                lemma_key_ms_count(x0.key, x0.count as nat, k);
                lemma_key_ms_count(yin.key, yin.count as nat, k);
            }
            assert(ms_of(&Some(y)) =~= ms_of(&x0.left).add(key_ms(x0.key, x0.count as nat)).add(
                ms_of(&x0.right),
            ));
        }
        y
    }

    fn opt_size(node: &Option<Box<Node>>) -> (r: usize)
        requires
            tree_ok(node),
        ensures
            r == size_of(node),
    {
        match node {
            None => 0,
            Some(n) => n.size,
        }
    }

    /// Removes one occurrence of `key`: the stored multiset loses one
    /// occurrence when the key is present and is unchanged otherwise.
    pub fn remove(&mut self, key: i64)
        requires
            old(self).wf(),
        ensures
            final(self).wf(),
            final(self)@ == old(self)@.remove(key),
    {
        let taken = self.root.take();
        self.root = Self::remove_rec(taken, key);
    }

    fn remove_rec(node: Option<Box<Node>>, key: i64) -> (r: Option<Box<Node>>)
        requires
            tree_ok(&node),
        ensures
            tree_ok(&r),
            ms_of(&r) == ms_of(&node).remove(key),
            size_of(&node) - 1 <= size_of(&r) <= size_of(&node),
            prio_of(&r) <= prio_of(&node),
        decreases node,
    {
        match node {
            None => {
                proof {
                    assert forall|k: i64| ms_of(&node).remove(key).count(k) == ms_of(
                        &node,
                    ).count(k) by {}
                    assert(ms_of(&node).remove(key) =~= ms_of(&node));
                }
                None
            },
            Some(mut boxed) => {
                proof {
                    lemma_key_ms_count(boxed.key, boxed.count as nat, key);
                }
                if key < boxed.key {
                    let ghost old_node = Some(boxed);
                    let taken = boxed.left.take();
                    boxed.left = Self::remove_rec(taken, key);
                    boxed.size = Self::opt_size(&boxed.left) + boxed.count + Self::opt_size(
                        &boxed.right,
                    );
                    let r = Some(boxed);
                    proof {
                        assert forall|k: i64| ms_of(&r).count(k) == ms_of(&old_node).remove(
                            key,
                        ).count(k) by {
                            let b = old_node.unwrap();
                            lemma_key_ms_count(b.key, b.count as nat, k);
                            if k == key {
                                assert(!ms_of(&b.right).contains(k));
                                assert(!key_ms(b.key, b.count as nat).contains(k));
                            }
                        }
                        assert(ms_of(&r) =~= ms_of(&old_node).remove(key));
                    }
                    r
                } else if key > boxed.key {
                    let ghost old_node = Some(boxed);
                    let taken = boxed.right.take();
                    boxed.right = Self::remove_rec(taken, key);
                    boxed.size = Self::opt_size(&boxed.left) + boxed.count + Self::opt_size(
                        &boxed.right,
                    );
                    let r = Some(boxed);
                    proof {
                        assert forall|k: i64| ms_of(&r).count(k) == ms_of(&old_node).remove(
                            key,
                        ).count(k) by {
                            let b = old_node.unwrap();
                            lemma_key_ms_count(b.key, b.count as nat, k);
                            if k == key {
                                assert(!ms_of(&b.left).contains(k));
                                assert(!key_ms(b.key, b.count as nat).contains(k));
                            }
                        }
                        assert(ms_of(&r) =~= ms_of(&old_node).remove(key));
                    }
                    r
                } else {
                    if boxed.count > 1 {
                        let ghost old_node = Some(boxed);
                        boxed.count -= 1;
                        boxed.size -= 1;
                        let r = Some(boxed);
                        proof {
                            let b = old_node.unwrap();
                            assert forall|k: i64| ms_of(&r).count(k) == ms_of(&old_node).remove(
                                key,
                            ).count(k) by {
                                lemma_key_ms_count(b.key, b.count as nat, k);
                                lemma_key_ms_count(b.key, (b.count - 1) as nat, k);
                            }
                            assert(ms_of(&r) =~= ms_of(&old_node).remove(key));
                        }
                        return r;
                    }
                    let ghost old_node = Some(boxed);
                    let l = boxed.left.take();
                    let rgt = boxed.right.take();
                    proof {
                        lemma_size_is_ms_len(&l);
                        lemma_size_is_ms_len(&rgt);
                        assert forall|k1: i64, k2: i64|
                            ms_of(&l).contains(k1) && ms_of(&rgt).contains(k2) implies k1 < k2 by {
                            assert(k1 < old_node.unwrap().key);
                            assert(k2 > old_node.unwrap().key);
                        }
                    }
                    let merged = Self::merge(l, rgt);
                    proof {
                        let b = old_node.unwrap();
                        assert forall|k: i64| ms_of(&merged).count(k) == ms_of(&old_node).remove(
                            key,
                        ).count(k) by {
                            lemma_key_ms_count(b.key, b.count as nat, k);
                            if k == key {
                                assert(!ms_of(&b.left).contains(k));
                                assert(!ms_of(&b.right).contains(k));
                            }
                        }
                        assert(ms_of(&merged) =~= ms_of(&old_node).remove(key));
                    }
                    merged
                }
            },
        }
    }

    fn merge(a: Option<Box<Node>>, b: Option<Box<Node>>) -> (r: Option<Box<Node>>)
        requires
            tree_ok(&a),
            tree_ok(&b),
            size_of(&a) + size_of(&b) <= usize::MAX,
            forall|k1: i64, k2: i64|
                ms_of(&a).contains(k1) && ms_of(&b).contains(k2) ==> k1 < k2,
        ensures
            tree_ok(&r),
            ms_of(&r) == ms_of(&a).add(ms_of(&b)),
            size_of(&r) == size_of(&a) + size_of(&b),
            prio_of(&r) <= (if prio_of(&a) >= prio_of(&b) {
                prio_of(&a)
            } else {
                prio_of(&b)
            }),
        decreases size_of(&a) + size_of(&b),
    {
        match (a, b) {
            (None, rb) => {
                proof {
                    assert(ms_of(&rb) =~= ms_of(&None).add(ms_of(&rb)));
                }
                rb
            },
            (la, None) => {
                proof {
                    assert(ms_of(&la) =~= ms_of(&la).add(ms_of(&None)));
                }
                la
            },
            (Some(mut la), Some(mut rb)) => {
                proof {
                    lemma_key_ms_len(la.key, la.count as nat);
                    lemma_key_ms_len(rb.key, rb.count as nat);
                    lemma_size_is_ms_len(&la.left);
                    lemma_size_is_ms_len(&la.right);
                    lemma_size_is_ms_len(&rb.left);
                    lemma_size_is_ms_len(&rb.right);
                }
                if la.priority > rb.priority {
                    let ghost la0 = la;
                    let ghost rb0 = rb;
                    let taken = la.right.take();
                    let rb_size = rb.size;
                    proof {
                        assert forall|k1: i64, k2: i64|
                            ms_of(&taken).contains(k1) && ms_of(&Some(rb)).contains(
                                k2,
                            ) implies k1 < k2 by {
                            assert(ms_of(&Some(la0)).contains(k1));
                        }
                    }
                    la.right = Self::merge(taken, Some(rb));
                    la.size = la.size + rb_size;
                    proof {
                        assert forall|k: i64| (#[trigger] ms_of(&la.right).count(k))
                            > 0 implies k > la.key by {
                            lemma_key_ms_len(la0.key, la0.count as nat);
                            assert(ms_of(&Some(la0)).contains(la0.key));
                            if ms_of(&la0.right).contains(k) {
                                assert(k > la0.key);
                            }
                            if ms_of(&Some(rb0)).contains(k) {
                                assert(la0.key < k);
                            }
                        }
                        assert(tree_ok(&Some(la)));
                        assert(ms_of(&Some(la)) =~= ms_of(&Some(la0)).add(ms_of(&Some(rb0))));
                    }
                    Some(la)
                } else {
                    let ghost la0 = la;
                    let ghost rb0 = rb;
                    let taken = rb.left.take();
                    let la_size = la.size;
                    proof {
                        assert forall|k1: i64, k2: i64|
                            ms_of(&Some(la)).contains(k1) && ms_of(&taken).contains(
                                k2,
                            ) implies k1 < k2 by {
                            assert(ms_of(&Some(rb0)).contains(k2));
                        }
                    }
                    rb.left = Self::merge(Some(la), taken);
                    rb.size = rb.size + la_size;
                    proof {
                        assert forall|k: i64| (#[trigger] ms_of(&rb.left).count(k))
                            > 0 implies k < rb.key by {
                            lemma_key_ms_len(rb0.key, rb0.count as nat);
                            assert(ms_of(&Some(rb0)).contains(rb0.key));
                            if ms_of(&rb0.left).contains(k) {
                                assert(k < rb0.key);
                            }
                            if ms_of(&Some(la0)).contains(k) {
                                assert(k < rb0.key);
                            }
                        }
                        assert(tree_ok(&Some(rb)));
                        assert(ms_of(&Some(rb)) =~= ms_of(&Some(la0)).add(ms_of(&Some(rb0))));
                    }
                    Some(rb)
                }
            },
        }
    }

    /// The stored keys in non-decreasing order, each repeated per its
    /// multiplicity: the sorted sequence whose content is exactly the
    /// stored multiset.
    pub fn inorder_vec(&self) -> (r: Vec<i64>)
        requires
            self.wf(),
        ensures
            r@.to_multiset() == self@,
            sorted(r@),
            r@.len() == self@.len(),
    {
        proof {
            lemma_size_is_ms_len(&self.root);
            lemma_seq_of_ms(&self.root);
            lemma_seq_of_sorted(&self.root);
        }
        let mut out: Vec<i64> = Vec::new();
        Self::inorder_rec(&self.root, &mut out);
        out
    }

    fn inorder_rec(node: &Option<Box<Node>>, out: &mut Vec<i64>)
        requires
            tree_ok(node),
            old(out)@.len() + size_of(node) <= usize::MAX,
        ensures
            final(out)@ == old(out)@ + seq_of(node),
        decreases node,
    {
        proof {
            lemma_size_is_ms_len(node);
            lemma_seq_of_ms(node);
        }
        match node {
            None => {
                proof {
                    assert(out@ =~= old(out)@ + seq_of(node));
                }
            },
            Some(n) => {
                proof {
                    lemma_size_is_ms_len(&n.left);
                    lemma_seq_of_ms(&n.left);
                    lemma_size_is_ms_len(&n.right);
                    lemma_seq_of_ms(&n.right);
                }
                Self::inorder_rec(&n.left, out);
                let mut c: usize = 0;
                while c < n.count
                    invariant
                        c <= n.count,
                        out@ == old(out)@ + seq_of(&n.left) + Seq::new(c as nat, |i: int| n.key),
                        out@.len() == old(out)@.len() + seq_of(&n.left).len() + c,
                        old(out)@.len() + seq_of(&n.left).len() + n.count <= usize::MAX,
                    decreases n.count - c,
                {
                    out.push(n.key);
                    c += 1;
                    proof {
                        assert(out@ =~= old(out)@ + seq_of(&n.left) + Seq::new(
                            c as nat,
                            |i: int| n.key,
                        ));
                    }
                }
                Self::inorder_rec(&n.right, out);
                proof {
                    assert(out@ =~= old(out)@ + seq_of(node));
                }
            },
        }
    }
}

/// Inserting a key and then removing it returns the stored content to
/// exactly what it was.
pub proof fn lemma_insert_remove_round_trip(m: Multiset<i64>, k: i64)
    ensures
        m.insert(k).remove(k) =~= m,
{
}

/// Removing the last occurrence of a key leaves a content that no
/// longer contains it.
pub proof fn lemma_remove_last_occurrence(m: Multiset<i64>, k: i64)
    requires
        m.count(k) == 1,
    ensures
        !m.remove(k).contains(k),
{
}

/// Inserting grows the stored count by one; removing a present key
/// shrinks it by one and removing an absent key changes nothing.
pub proof fn lemma_len_accounting(m: Multiset<i64>, k: i64)
    ensures
        m.insert(k).len() == m.len() + 1,
        m.contains(k) ==> m.remove(k).len() == m.len() - 1,
        !m.contains(k) ==> m.remove(k) =~= m,
{
    if m.contains(k) {
        assert(Multiset::singleton(k).subset_of(m));
        assert(m.remove(k).len() == m.len() - 1);
    }
}

/// Two sorted sequences with the same content are identical: the
/// ordered listing of a treap is determined by its stored multiset.
pub proof fn lemma_sorted_same_content(x: Seq<i64>, y: Seq<i64>)
    requires
        sorted(x),
        sorted(y),
        x.to_multiset() == y.to_multiset(),
    ensures
        x == y,
{
    let leq = |a: i64, b: i64| a <= b;
    assert(total_ordering(leq));
    assert(sorted_by(x, leq));
    assert(sorted_by(y, leq));
    lemma_sorted_unique(x, y, leq);
    assert(x =~= y);
}

} // verus!
