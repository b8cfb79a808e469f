//! A B-tree of integer keys with minimum degree `t` (each node holds at most
//! `2t - 1` keys and, when internal, one child more than keys): construction,
//! lookup, and in-order traversal. It stands apart from the order book.

use vstd::prelude::*;

verus! {

broadcast use vstd::std_specs::vec::group_vec_axioms;

/// One node: its keys in order and, unless it is a leaf, the subtrees around them.
pub struct Node {
    pub leaf: bool,
    pub keys: Vec<i32>,
    pub children: Vec<Box<Node>>,
}

/// Whether `k` is a key of `n` or of any node below it.
pub open spec fn holds(n: Node, k: i32) -> bool
    decreases n,
{
    ||| n.keys@.contains(k)
    ||| (!n.leaf && exists|i: int|
        0 <= i < n.children@.len() && holds(*#[trigger] n.children@[i], k))
}

/// The keys of a node are in non-decreasing order, an internal node has one
/// child more than keys, and each subtree is sound and holds only keys between
/// the two keys of its parent that surround it.
pub open spec fn sound(n: Node) -> bool
    decreases n,
{
    &&& forall|a: int, b: int| 0 <= a < b < n.keys@.len() ==> n.keys@[a] <= n.keys@[b]
    &&& !n.leaf ==> n.children@.len() == n.keys@.len() + 1
    &&& !n.leaf ==> forall|i: int|
        0 <= i < n.children@.len() ==> {
            &&& sound(*#[trigger] n.children@[i])
            &&& forall|k: i32|
                holds(*n.children@[i], k) ==> (i > 0 ==> n.keys@[i - 1] <= k) && (i
                    < n.keys@.len() ==> k <= n.keys@[i])
        }
}

/// The number of levels below `n`, along its first children.
pub open spec fn height(n: Node) -> nat
    decreases n,
{
    if n.leaf || n.children@.len() == 0 {
        0
    } else {
        1 + height(*n.children@[0])
    }
}

/// Every node holds at most `2t - 1` keys, a leaf has no children, an internal
/// node one child more than keys, and all leaves lie at one depth.
pub open spec fn shaped(n: Node, t: int) -> bool
    decreases n,
{
    &&& n.keys@.len() <= 2 * t - 1
    &&& n.leaf ==> n.children@.len() == 0
    &&& !n.leaf ==> n.children@.len() == n.keys@.len() + 1
    &&& !n.leaf ==> forall|i: int|
        0 <= i < n.children@.len() ==> shaped(*#[trigger] n.children@[i], t) && height(
            *n.children@[i],
        ) + 1 == height(n)
}

/// Splitting a full node `y` around its middle key into `l` (the keys and
/// children before it) and `z` (those after it) gives two sound, shaped nodes
/// of `y`'s height that, with the middle key, hold what `y` held, on either side of it.
proof fn lemma_split_node(y: Node, l: Node, z: Node, t: int)
    requires
        t >= 2,
        sound(y),
        shaped(y, t),
        y.keys@.len() == 2 * t - 1,
        l.leaf == y.leaf,
        z.leaf == y.leaf,
        l.keys@ == y.keys@.subrange(0, t - 1),
        z.keys@ == y.keys@.subrange(t, 2 * t - 1),
        y.leaf ==> l.children@.len() == 0 && z.children@.len() == 0,
        !y.leaf ==> l.children@ == y.children@.subrange(0, t),
        !y.leaf ==> z.children@ == y.children@.subrange(t, 2 * t),
    ensures
        sound(l),
        sound(z),
        shaped(l, t),
        shaped(z, t),
        height(l) == height(y),
        height(z) == height(y),
        forall|k: i32| holds(y, k) <==> (holds(l, k) || k == y.keys@[t - 1] || holds(z, k)),
        forall|k: i32| holds(l, k) ==> k <= y.keys@[t - 1],
        forall|k: i32| holds(z, k) ==> y.keys@[t - 1] <= k,
{
    let m = y.keys@[t - 1];
    if !y.leaf {
        assert(l.children@[0] == y.children@[0]);
        assert(z.children@[0] == y.children@[t]);
        assert(shaped(*y.children@[t], t) && height(*y.children@[t]) + 1 == height(y));
        assert forall|i: int| 0 <= i < l.children@.len() implies shaped(*#[trigger] l.children@[i], t)
            && height(*l.children@[i]) + 1 == height(l) by {
            assert(l.children@[i] == y.children@[i]);
        }
        assert forall|i: int| 0 <= i < z.children@.len() implies shaped(*#[trigger] z.children@[i], t)
            && height(*z.children@[i]) + 1 == height(z) by {
            assert(z.children@[i] == y.children@[t + i]);
        }
        assert forall|i: int| 0 <= i < l.children@.len() implies {
            &&& sound(*#[trigger] l.children@[i])
            &&& forall|k: i32|
                holds(*l.children@[i], k) ==> (i > 0 ==> l.keys@[i - 1] <= k) && (i < l.keys@.len()
                    ==> k <= l.keys@[i])
        } by {
            assert(l.children@[i] == y.children@[i]);
        }
        assert forall|i: int| 0 <= i < z.children@.len() implies {
            &&& sound(*#[trigger] z.children@[i])
            &&& forall|k: i32|
                holds(*z.children@[i], k) ==> (i > 0 ==> z.keys@[i - 1] <= k) && (i < z.keys@.len()
                    ==> k <= z.keys@[i])
        } by {
            assert(z.children@[i] == y.children@[t + i]);
        }
    }
    assert forall|k: i32| holds(l, k) implies k <= m by {
        if l.keys@.contains(k) {
            let a = choose|a: int| 0 <= a < l.keys@.len() && l.keys@[a] == k;
            assert(y.keys@[a] <= y.keys@[t - 1]);
        } else {
            let i = choose|i: int| 0 <= i < l.children@.len() && holds(*#[trigger] l.children@[i], k);
            assert(l.children@[i] == y.children@[i]);
            assert(y.keys@[i] <= y.keys@[t - 1]);
        }
    }
    assert forall|k: i32| holds(z, k) implies m <= k by {
        if z.keys@.contains(k) {
            let a = choose|a: int| 0 <= a < z.keys@.len() && z.keys@[a] == k;
            assert(z.keys@[a] == y.keys@[t + a]);
        } else {
            let i = choose|i: int| 0 <= i < z.children@.len() && holds(*#[trigger] z.children@[i], k);
            assert(z.children@[i] == y.children@[t + i]);
            assert(y.keys@[t - 1] <= y.keys@[t + i - 1]);
        }
    }
    assert forall|k: i32| holds(y, k) <==> (holds(l, k) || k == m || holds(z, k)) by {
        if y.keys@.contains(k) {
            let a = choose|a: int| 0 <= a < y.keys@.len() && y.keys@[a] == k;
            if a < t - 1 {
                assert(l.keys@[a] == k);
            } else if a > t - 1 {
                assert(z.keys@[a - t] == k);
            }
        } else if holds(y, k) {
            let i = choose|i: int| 0 <= i < y.children@.len() && holds(*#[trigger] y.children@[i], k);
            if i < t {
                assert(l.children@[i] == y.children@[i]);
            } else {
                assert(z.children@[i - t] == y.children@[i]);
            }
        }
        if l.keys@.contains(k) {
            let a = choose|a: int| 0 <= a < l.keys@.len() && l.keys@[a] == k;
            assert(y.keys@[a] == k);
        } else if holds(l, k) {
            let i = choose|i: int| 0 <= i < l.children@.len() && holds(*#[trigger] l.children@[i], k);
            assert(l.children@[i] == y.children@[i]);
        }
        if k == m {
            assert(y.keys@[t - 1] == k);
        }
        if z.keys@.contains(k) {
            let a = choose|a: int| 0 <= a < z.keys@.len() && z.keys@[a] == k;
            assert(y.keys@[t + a] == k);
        } else if holds(z, k) {
            let i = choose|i: int| 0 <= i < z.children@.len() && holds(*#[trigger] z.children@[i], k);
            assert(z.children@[i] == y.children@[t + i]);
        }
    }
}

/// Replacing the full child `i` of `x` by the two halves of its split, with
/// its middle key moved up into `x` at `i`, keeps `x` sound and shaped, of the
/// same height and holding the same keys.
proof fn lemma_split_parent(x: Node, x2: Node, i: int, l: Node, z: Node, t: int)
    requires
        t >= 2,
        !x.leaf,
        sound(x),
        shaped(x, t),
        x.keys@.len() < 2 * t - 1,
        0 <= i < x.children@.len(),
        x.children@[i].keys@.len() == 2 * t - 1,
        l.leaf == x.children@[i].leaf,
        z.leaf == x.children@[i].leaf,
        l.keys@ == x.children@[i].keys@.subrange(0, t - 1),
        z.keys@ == x.children@[i].keys@.subrange(t, 2 * t - 1),
        x.children@[i].leaf ==> l.children@.len() == 0 && z.children@.len() == 0,
        !x.children@[i].leaf ==> l.children@ == x.children@[i].children@.subrange(0, t),
        !x.children@[i].leaf ==> z.children@ == x.children@[i].children@.subrange(t, 2 * t),
        !x2.leaf,
        x2.keys@ == x.keys@.insert(i, x.children@[i].keys@[t - 1]),
        x2.children@.len() == x.children@.len() + 1,
        forall|j: int| 0 <= j < i ==> x2.children@[j] == x.children@[j],
        *x2.children@[i] == l,
        *x2.children@[i + 1] == z,
        forall|j: int| i + 1 < j < x2.children@.len() ==> x2.children@[j] == x.children@[j - 1],
    ensures
        sound(x2),
        shaped(x2, t),
        height(x2) == height(x),
        forall|k: i32| holds(x2, k) <==> holds(x, k),
{
    let y = *x.children@[i];
    let m = y.keys@[t - 1];
    assert(sound(y) && shaped(y, t) && height(y) + 1 == height(x));
    lemma_split_node(y, l, z, t);
    assert(y.keys@.contains(m));
    assert(holds(y, m));
    assert forall|a: int, b: int| 0 <= a < b < x2.keys@.len() implies x2.keys@[a] <= x2.keys@[b] by {
        if a < i && b > i {
            assert(x.keys@[a] <= m);
        }
    }
    assert(shaped(*x.children@[0], t) && height(*x.children@[0]) + 1 == height(x));
    assert forall|j: int| 0 <= j < x2.children@.len() implies shaped(*#[trigger] x2.children@[j], t)
        && height(*x2.children@[j]) + 1 == height(x2) by {
        if j > i + 1 {
            assert(x2.children@[j] == x.children@[j - 1]);
            assert(shaped(*x.children@[j - 1], t));
        } else if j < i {
            assert(shaped(*x.children@[j], t));
        }
    }
    assert forall|j: int| 0 <= j < x2.children@.len() implies {
        &&& sound(*#[trigger] x2.children@[j])
        &&& forall|k: i32|
            holds(*x2.children@[j], k) ==> (j > 0 ==> x2.keys@[j - 1] <= k) && (j < x2.keys@.len()
                ==> k <= x2.keys@[j])
    } by {
        if j < i {
            assert(x2.children@[j] == x.children@[j]);
            assert(sound(*x.children@[j]));
        } else if j > i + 1 {
            assert(x2.children@[j] == x.children@[j - 1]);
            assert(sound(*x.children@[j - 1]));
        } else if j == i {
            assert forall|k: i32| holds(l, k) implies (j > 0 ==> x2.keys@[j - 1] <= k) && (j
                < x2.keys@.len() ==> k <= x2.keys@[j]) by {
                assert(holds(y, k));
            }
        } else {
            assert forall|k: i32| holds(z, k) implies (j > 0 ==> x2.keys@[j - 1] <= k) && (j
                < x2.keys@.len() ==> k <= x2.keys@[j]) by {
                assert(holds(y, k));
            }
        }
    }
    assert forall|k: i32| holds(x2, k) <==> holds(x, k) by {
        if x2.keys@.contains(k) {
            let a = choose|a: int| 0 <= a < x2.keys@.len() && x2.keys@[a] == k;
            if a < i {
                assert(x.keys@[a] == k);
            } else if a > i {
                assert(x.keys@[a - 1] == k);
            } else {
                assert(holds(*x.children@[i], k));
            }
        } else if holds(x2, k) {
            let j = choose|j: int| 0 <= j < x2.children@.len() && holds(*#[trigger] x2.children@[j], k);
            if j < i {
                assert(holds(*x.children@[j], k));
            } else if j > i + 1 {
                assert(holds(*x.children@[j - 1], k));
            } else {
                assert(holds(*x.children@[i], k));
            }
        }
        if x.keys@.contains(k) {
            let a = choose|a: int| 0 <= a < x.keys@.len() && x.keys@[a] == k;
            if a < i {
                assert(x2.keys@[a] == k);
            } else {
                assert(x2.keys@[a + 1] == k);
            }
        } else if holds(x, k) {
            let j = choose|j: int| 0 <= j < x.children@.len() && holds(*#[trigger] x.children@[j], k);
            if j < i {
                assert(holds(*x2.children@[j], k));
            } else if j > i {
                assert(holds(*x2.children@[j + 1], k));
            } else if k == m {
                assert(x2.keys@[i] == k);
            } else if holds(l, k) {
                assert(holds(*x2.children@[i], k));
            } else {
                assert(holds(*x2.children@[i + 1], k));
            }
        }
    }
}

/// Replacing child `i` of `x` by a sound node of the same shape and height
/// that holds one key more, `k`, which lies between the keys around child `i`,
/// keeps `x` sound and shaped, and adds `k` to what it holds.
proof fn lemma_child_grown(x: Node, x2: Node, i: int, k: i32, t: int)
    requires
        !x.leaf,
        sound(x),
        shaped(x, t),
        0 <= i < x.children@.len(),
        i > 0 ==> x.keys@[i - 1] <= k,
        i < x.keys@.len() ==> k <= x.keys@[i],
        x2.leaf == x.leaf,
        x2.keys@ == x.keys@,
        x2.children@.len() == x.children@.len(),
        forall|j: int| 0 <= j < x.children@.len() && j != i ==> x2.children@[j] == x.children@[j],
        sound(*x2.children@[i]),
        shaped(*x2.children@[i], t),
        height(*x2.children@[i]) == height(*x.children@[i]),
        forall|j: i32| holds(*x2.children@[i], j) <==> (holds(*x.children@[i], j) || j == k),
    ensures
        sound(x2),
        shaped(x2, t),
        height(x2) == height(x),
        forall|j: i32| holds(x2, j) <==> (holds(x, j) || j == k),
{
    assert(shaped(*x.children@[0], t) && height(*x.children@[0]) + 1 == height(x));
    assert(shaped(*x.children@[i], t) && height(*x.children@[i]) + 1 == height(x));
    assert(sound(*x.children@[i]));
    assert forall|j: int| 0 <= j < x2.children@.len() implies shaped(*#[trigger] x2.children@[j], t)
        && height(*x2.children@[j]) + 1 == height(x2) by {
        if j != i {
            assert(shaped(*x.children@[j], t));
        }
    }
    assert forall|j: int| 0 <= j < x2.children@.len() implies {
        &&& sound(*#[trigger] x2.children@[j])
        &&& forall|q: i32|
            holds(*x2.children@[j], q) ==> (j > 0 ==> x2.keys@[j - 1] <= q) && (j < x2.keys@.len()
                ==> q <= x2.keys@[j])
    } by {
        if j != i {
            assert(sound(*x.children@[j]));
        } else {
            assert forall|q: i32| holds(*x2.children@[j], q) implies (j > 0 ==> x2.keys@[j - 1] <= q)
                && (j < x2.keys@.len() ==> q <= x2.keys@[j]) by {
                if q != k {
                    assert(holds(*x.children@[i], q));
                }
            }
        }
    }
    assert forall|q: i32| holds(x2, q) <==> (holds(x, q) || q == k) by {
        if holds(x2, q) && !x2.keys@.contains(q) {
            let j = choose|j: int| 0 <= j < x2.children@.len() && holds(*#[trigger] x2.children@[j], q);
            if j != i {
                assert(holds(*x.children@[j], q));
            } else if q != k {
                assert(holds(*x.children@[i], q));
            }
        }
        if holds(x, q) && !x.keys@.contains(q) {
            let j = choose|j: int| 0 <= j < x.children@.len() && holds(*#[trigger] x.children@[j], q);
            assert(holds(*x2.children@[j], q));
        }
        if q == k {
            assert(holds(*x2.children@[i], q));
        }
    }
}

/// The keys of `n` and the nodes below it, in order.
pub open spec fn in_order(n: Node) -> Seq<i32>
    decreases n, n.keys@.len() + 1,
{
    in_order_upto(n, n.keys@.len() as int) + in_order_child(n, n.keys@.len() as int)
}

/// The traversal of `n` up to and including its key `i - 1`.
pub open spec fn in_order_upto(n: Node, i: int) -> Seq<i32>
    decreases n, i,
{
    if i <= 0 || i > n.keys@.len() {
        Seq::empty()
    } else {
        in_order_upto(n, i - 1) + in_order_child(n, i - 1) + seq![n.keys@[i - 1]]
    }
}

/// The traversal of child `i` of `n`; nothing for a leaf.
pub open spec fn in_order_child(n: Node, i: int) -> Seq<i32>
    decreases n, 0int,
{
    if !n.leaf && 0 <= i < n.children@.len() {
        in_order(*n.children@[i])
    } else {
        Seq::empty()
    }
}

/// A B-tree with minimum degree `t`.
pub struct BTree {
    pub t: usize,
    pub root: Box<Node>,
}

impl Node {
    /// An empty node, with room reserved for a full node's keys and children.
    pub fn new(leaf: bool, t: usize) -> (r: Node)
        requires
            1 <= t <= usize::MAX / 2,
        ensures
            r.leaf == leaf,
            r.keys@.len() == 0,
            r.children@.len() == 0,
    {
        Node { leaf, keys: Vec::with_capacity(2 * t - 1), children: Vec::with_capacity(2 * t) }
    }
}

impl BTree {
    /// The degree lies in range, and the root is sound and shaped.
    pub open spec fn wf(&self) -> bool {
        &&& 2 <= self.t <= usize::MAX / 2
        &&& sound(*self.root)
        &&& shaped(*self.root, self.t as int)
    }

    /// An empty tree of minimum degree `t`.
    pub fn new(t: usize) -> (r: BTree)
        requires
            2 <= t <= usize::MAX / 2,
        ensures
            r.t == t,
            r.root.leaf,
            r.root.keys@.len() == 0,
            r.root.children@.len() == 0,
            r.wf(),
            in_order(*r.root) == Seq::<i32>::empty(),
    {
        let r = BTree { t, root: Box::new(Node::new(true, t)) };
        proof {
            assert(in_order_upto(*r.root, 0) == Seq::<i32>::empty());
            assert(in_order(*r.root) =~= Seq::<i32>::empty());
        }
        r
    }

    /// Adds `k` to the tree; a full root is split first, so the tree grows at the top.
    pub fn insert(&mut self, k: i32)
        requires
            old(self).wf(),
        ensures
            final(self).wf(),
            final(self).t == old(self).t,
            forall|j: i32| holds(*final(self).root, j) <==> (holds(*old(self).root, j) || j == k),
    {
        let t = self.t;
        if self.root.keys.len() == 2 * t - 1 {
            let mut new_root = Box::new(Node::new(false, t));
            let mut old_root = Box::new(Node::new(true, t));
            std::mem::swap(&mut old_root, &mut self.root);
            let ghost r0 = *old_root;
            new_root.children.push(old_root);
            proof {
                assert(new_root.children@[0] == r0);
                assert(sound(*new_root));
                assert(shaped(*new_root, t as int));
                assert forall|j: i32| holds(*new_root, j) <==> holds(r0, j) by {
                    if holds(r0, j) {
                        assert(holds(*new_root.children@[0], j));
                    }
                }
            }
            self.split_child(&mut new_root, 0);
            self.insert_non_full(&mut new_root, k);
            self.root = new_root;
        } else {
            let mut root = Box::new(Node::new(true, t));
            std::mem::swap(&mut root, &mut self.root);
            self.insert_non_full(&mut root, k);
            self.root = root;
        }
    }

    /// Adds `k` under `x`, which is not full: into a leaf at its place, or
    /// down the one child whose range holds it, splitting that child first when full.
    pub fn insert_non_full(&self, x: &mut Box<Node>, k: i32)
        requires
            2 <= self.t <= usize::MAX / 2,
            sound(**old(x)),
            shaped(**old(x), self.t as int),
            old(x).keys@.len() < 2 * self.t - 1,
        ensures
            sound(**final(x)),
            shaped(**final(x), self.t as int),
            height(**final(x)) == height(**old(x)),
            final(x).leaf == old(x).leaf,
            forall|j: i32| holds(**final(x), j) <==> (holds(**old(x), j) || j == k),
        decreases height(**old(x)),
    {
        let t = self.t;
        let ghost x0 = **x;
        let mut i = x.keys.len();
        while i > 0 && k < x.keys[i - 1]
            invariant
                **x == x0,
                i <= x0.keys@.len(),
                forall|a: int| i <= a < x0.keys@.len() ==> k < x0.keys@[a],
            decreases i,
        {
            i -= 1;
        }
        if x.leaf {
            x.keys.insert(i, k);
            proof {
                let x2 = **x;
                assert(x2.keys@ == x0.keys@.insert(i as int, k));
                assert forall|a: int, b: int| 0 <= a < b < x2.keys@.len() implies x2.keys@[a] <= x2.keys@[b] by {
                    if a < i && b > i {
                        assert(x0.keys@[a] <= x0.keys@[i - 1]);
                    }
                }
                assert forall|j: i32| holds(x2, j) <==> (holds(x0, j) || j == k) by {
                    if x2.keys@.contains(j) {
                        let a = choose|a: int| 0 <= a < x2.keys@.len() && x2.keys@[a] == j;
                        if a < i {
                            assert(x0.keys@[a] == j);
                        } else if a > i {
                            assert(x0.keys@[a - 1] == j);
                        }
                    }
                    if x0.keys@.contains(j) {
                        let a = choose|a: int| 0 <= a < x0.keys@.len() && x0.keys@[a] == j;
                        if a < i {
                            assert(x2.keys@[a] == j);
                        } else {
                            assert(x2.keys@[a + 1] == j);
                        }
                    }
                    if j == k {
                        assert(x2.keys@[i as int] == j);
                    }
                }
            }
            return;
        }
        assert(x0.children@.len() == x0.keys@.len() + 1);
        assert(shaped(*x0.children@[i as int], t as int));
        if x.children[i].keys.len() == 2 * t - 1 {
            self.split_child(x, i);
            if k > x.keys[i] {
                i += 1;
            }
        }
        let ghost x1 = **x;
        proof {
            assert(x1.children@.len() == x1.keys@.len() + 1);
            assert(sound(*x1.children@[i as int]));
            assert(shaped(*x1.children@[i as int], t as int));
            assert(height(*x1.children@[i as int]) + 1 == height(x1));
        }
        self.insert_non_full(&mut x.children[i], k);
        proof {
            lemma_child_grown(x1, **x, i as int, k, t as int);
        }
    }

    /// Splits the full child `i` of `x` around its middle key: the keys and
    /// children after the middle go to a new node placed right after it, and
    /// the middle key moves up into `x` at `i`.
    pub fn split_child(&self, x: &mut Box<Node>, i: usize)
        requires
            2 <= self.t <= usize::MAX / 2,
            !old(x).leaf,
            sound(**old(x)),
            shaped(**old(x), self.t as int),
            old(x).keys@.len() < 2 * self.t - 1,
            i < old(x).children@.len(),
            old(x).children@[i as int].keys@.len() == 2 * self.t - 1,
        ensures
            !final(x).leaf,
            sound(**final(x)),
            shaped(**final(x), self.t as int),
            height(**final(x)) == height(**old(x)),
            forall|j: i32| holds(**final(x), j) <==> holds(**old(x), j),
            final(x).keys@ == old(x).keys@.insert(i as int, old(x).children@[i as int].keys@[self.t - 1]),
            final(x).children@.len() == old(x).children@.len() + 1,
            final(x).children@[i as int].keys@.len() == self.t - 1,
            final(x).children@[i + 1].keys@.len() == self.t - 1,
    {
        let t = self.t;
        let ghost x0 = **x;
        let mut y = x.children.remove(i);
        let ghost y0 = *y;
        assert(shaped(y0, t as int));
        let median = y.keys[t - 1];
        let right_keys = y.keys.split_off(t);
        y.keys.pop();
        let mut z = Box::new(Node::new(y.leaf, t));
        z.keys = right_keys;
        if !y.leaf {
            let right_children = y.children.split_off(t);
            z.children = right_children;
        }
        let ghost l = *y;
        let ghost zz = *z;
        x.children.insert(i, y);
        x.children.insert(i + 1, z);
        x.keys.insert(i, median);
        proof {
            assert(l.keys@ =~= y0.keys@.subrange(0, t - 1));
            assert(zz.keys@ =~= y0.keys@.subrange(t as int, 2 * t - 1));
            let x2 = **x;
            assert forall|j: int| 0 <= j < i implies x2.children@[j] == x0.children@[j] by {}
            assert forall|j: int| i + 1 < j < x2.children@.len() implies x2.children@[j] == x0.children@[j - 1] by {}
            lemma_split_parent(x0, x2, i as int, l, zz, t as int);
        }
    }

    /// Whether `k` is in the tree.
    pub fn search(&self, k: i32) -> (r: bool)
        requires
            sound(*self.root),
        ensures
            r == holds(*self.root, k),
    {
        Self::search_node(&self.root, k)
    }

    /// Whether `k` is in the subtree at `x`, following the one path that can hold it.
    pub fn search_node(x: &Node, k: i32) -> (r: bool)
        requires
            sound(*x),
        ensures
            r == holds(*x, k),
        decreases x,
    {
        let mut i: usize = 0;
        while i < x.keys.len() && k > x.keys[i]
            invariant
                sound(*x),
                i <= x.keys@.len(),
                forall|a: int| 0 <= a < i ==> x.keys@[a] < k,
            decreases x.keys@.len() - i,
        {
            i += 1;
        }
        if i < x.keys.len() && x.keys[i] == k {
            assert(x.keys@.contains(k));
            return true;
        }
        assert(!x.keys@.contains(k)) by {
            if x.keys@.contains(k) {
                let a = choose|a: int| 0 <= a < x.keys@.len() && x.keys@[a] == k;
                if a >= i {
                    assert(x.keys@[i as int] <= x.keys@[a]);
                }
            }
        }
        if x.leaf {
            return false;
        }
        assert(x.children@.len() == x.keys@.len() + 1);
        assert(sound(*x.children@[i as int]));
        let r = Self::search_node(&x.children[i], k);
        proof {
            if holds(*x, k) && !r {
                assert(exists|j: int| 0 <= j < x.children@.len() && holds(*#[trigger] x.children@[j], k));
                let j = choose|j: int| 0 <= j < x.children@.len() && holds(*#[trigger] x.children@[j], k);
                assert(sound(*x.children@[j]));
                if j < i {
                    assert(x.keys@[j] < k);
                } else if j > i {
                    assert(x.keys@[i as int] <= x.keys@[j - 1]);
                }
            }
            if r {
                assert(holds(*x.children@[i as int], k));
            }
        }
        r
    }

    /// The keys of the tree, in order.
    pub fn traverse(&self) -> (r: Vec<i32>)
        requires
            sound(*self.root),
        ensures
            r@ == in_order(*self.root),
    {
        let mut out: Vec<i32> = Vec::new();
        Self::traverse_node(&self.root, &mut out);
        proof {
            assert(out@ =~= in_order(*self.root));
        }
        out
    }

    /// Appends the keys of the subtree at `x`, in order, to `out`.
    pub fn traverse_node(x: &Node, out: &mut Vec<i32>)
        requires
            sound(*x),
        ensures
            final(out)@ == old(out)@ + in_order(*x),
        decreases x,
    {
        let mut i: usize = 0;
        while i < x.keys.len()
            invariant
                sound(*x),
                i <= x.keys@.len(),
                out@ == old(out)@ + in_order_upto(*x, i as int),
            decreases x.keys@.len() - i,
        {
            let ghost before = out@;
            if !x.leaf {
                assert(x.children@.len() == x.keys@.len() + 1);
                assert(sound(*x.children@[i as int]));
                Self::traverse_node(&x.children[i], out);
            }
            assert(out@ == before + in_order_child(*x, i as int));
            out.push(x.keys[i]);
            i += 1;
            proof {
                assert(in_order_upto(*x, i as int) == in_order_upto(*x, i - 1) + in_order_child(*x, i - 1)
                    + seq![x.keys@[i - 1]]);
                assert(out@ =~= old(out)@ + in_order_upto(*x, i as int));
            }
        }
        if !x.leaf {
            assert(x.children@.len() == x.keys@.len() + 1);
            assert(sound(*x.children@[i as int]));
            Self::traverse_node(&x.children[x.keys.len()], out);
        }
        assert(out@ == old(out)@ + in_order_upto(*x, i as int) + in_order_child(*x, i as int));
        proof {
            assert(out@ =~= old(out)@ + in_order(*x));
        }
    }
}

} // verus!
