//! The ordered tree itself: an unbalanced binary search tree that keeps
//! duplicate keys, with insertion, point lookup, minimum and maximum
//! extraction, and an in-order snapshot traversal.

use vstd::prelude::*;

use crate::entries::count_le;
use crate::entries::has_key;
use crate::entries::inserted;
use crate::entries::lemma_count_le_all;
use crate::entries::lemma_count_le_bounds;
use crate::entries::lemma_count_le_concat;
use crate::entries::lemma_count_le_none;
use crate::entries::lemma_count_le_singleton;
use crate::entries::lemma_inserted_index;
use crate::entries::sorted_by_key;

verus! {

/// One stored entry: a key, its payload, and ownership of the two subtrees.
struct Node<V> {
    key: u64,
    data: V,
    left: Option<Box<Node<V>>>,
    right: Option<Box<Node<V>>>,
}

/// An ordered key-value store. Abstractly, a tree is the sequence of its
/// `(key, value)` entries in in-order traversal order, exposed as the view
/// `self@`; a well-formed tree keeps that sequence sorted by key.
pub struct BST<V> {
    root: Option<Box<Node<V>>>,
}

impl<V> Node<V> {
    /// In-order entry sequence of an optional subtree.
    spec fn opt_entries(node: Option<Box<Node<V>>>) -> Seq<(u64, V)>
        decreases node,
    {
        match node {
            None => Seq::empty(),
            Some(n) => n.entries(),
        }
    }

    /// In-order entry sequence: left subtree, then this node, then right.
    spec fn entries(self) -> Seq<(u64, V)>
        decreases self,
    {
        Node::opt_entries(self.left) + seq![(self.key, self.data)] + Node::opt_entries(self.right)
    }

    /// The search-tree ordering property: every key on the left is strictly
    /// below this node's key, every key on the right is at or above it, and
    /// both subtrees satisfy the same property.
    spec fn wf(self) -> bool
        decreases self,
    {
        let l = Node::opt_entries(self.left);
        let r = Node::opt_entries(self.right);
        &&& forall|i: int| 0 <= i < l.len() ==> (#[trigger] l[i]).0 < self.key
        &&& forall|i: int| 0 <= i < r.len() ==> (#[trigger] r[i]).0 >= self.key
        &&& match self.left {
            Some(n) => n.wf(),
            None => true,
        }
        &&& match self.right {
            Some(n) => n.wf(),
            None => true,
        }
    }

    spec fn opt_wf(node: Option<Box<Node<V>>>) -> bool {
        match node {
            Some(n) => n.wf(),
            None => true,
        }
    }

    /// Attaches `(key, data)` below `node`, descending left on strictly
    /// smaller keys and right otherwise, and creating a leaf at the first
    /// absent slot.
    fn insert_under(node: &mut Option<Box<Node<V>>>, key: u64, data: V)
        requires
            Node::opt_wf(*old(node)),
        ensures
            Node::opt_wf(*final(node)),
            Node::opt_entries(*final(node)) == inserted(
                Node::opt_entries(*old(node)),
                key,
                data,
            ),
        decreases *old(node),
    {
        match node.take() {
            None => {
                *node = Some(Box::new(Node { key, data, left: None, right: None }));
                proof {
                    let s = Seq::<(u64, V)>::empty();
                    assert(count_le(s, key) == 0);
                    assert(Node::opt_entries(None::<Box<Node<V>>>) == s);
                    assert(Node::opt_entries(*node) =~= inserted(s, key, data));
                }
            },
            Some(mut b) => {
                (&mut *b).insert_node(key, data);
                *node = Some(b);
            },
        }
    }

    fn insert_node(&mut self, key: u64, data: V)
        requires
            old(self).wf(),
        ensures
            final(self).wf(),
            final(self).entries() == inserted(old(self).entries(), key, data),
        decreases *old(self),
    {
        proof {
            let l0 = Node::opt_entries(self.left);
            let r0 = Node::opt_entries(self.right);
            let m = (self.key, self.data);
            lemma_count_le_concat(l0 + seq![m], r0, key);
            lemma_count_le_concat(l0, seq![m], key);
            lemma_count_le_singleton(m, key);
            lemma_count_le_bounds(l0, key);
            lemma_count_le_bounds(r0, key);
        }
        if key < self.key {
            proof {
                let r0 = Node::opt_entries(self.right);
                assert forall|i: int| 0 <= i < r0.len() implies (#[trigger] r0[i]).0 > key by {}
                lemma_count_le_none(r0, key);
                lemma_inserted_index(Node::opt_entries(self.left), key, data);
            }
            Node::insert_under(&mut self.left, key, data);
            proof {
                let l0 = Node::opt_entries(old(self).left);
                let c = count_le(l0, key);
                let l1 = Node::opt_entries(self.left);
                assert(count_le(old(self).entries(), key) == c);
                assert forall|i: int| 0 <= i < l1.len() implies (#[trigger] l1[i]).0 < self.key by {
                    if i < c {
                        assert(l1[i] == l0[i]);
                    } else if i > c {
                        assert(l1[i] == l0[i - 1]);
                    }
                }
                assert(self.entries() =~= inserted(old(self).entries(), key, data));
            }
        } else {
            proof {
                let l0 = Node::opt_entries(self.left);
                assert forall|i: int| 0 <= i < l0.len() implies (#[trigger] l0[i]).0 <= key by {}
                lemma_count_le_all(l0, key);
                lemma_inserted_index(Node::opt_entries(self.right), key, data);
            }
            Node::insert_under(&mut self.right, key, data);
            proof {
                let l0 = Node::opt_entries(self.left);
                let r0 = Node::opt_entries(old(self).right);
                let c = count_le(r0, key);
                let r1 = Node::opt_entries(self.right);
                assert(count_le(old(self).entries(), key) == l0.len() + 1 + c);
                assert forall|i: int| 0 <= i < r1.len() implies (#[trigger] r1[i]).0 >= self.key by {
                    if i < c {
                        assert(r1[i] == r0[i]);
                    } else if i > c {
                        assert(r1[i] == r0[i - 1]);
                    }
                }
                assert(self.entries() =~= inserted(old(self).entries(), key, data));
            }
        }
    }

    /// Walks down from `node` by the same rule insertion uses: stop on an
    /// equal key, go left on a strictly smaller target, right otherwise.
    fn search_under(node: &Option<Box<Node<V>>>, target: u64) -> (r: Option<&V>)
        requires
            Node::opt_wf(*node),
        ensures
            r.is_some() <==> has_key(Node::opt_entries(*node), target),
            match r {
                Some(d) => exists|i: int|
                    0 <= i < Node::opt_entries(*node).len() && #[trigger] Node::opt_entries(
                        *node,
                    )[i] == (target, *d),
                None => true,
            },
        decreases node,
    {
        match node {
            None => None,
            Some(n) => {
                let ghost l = Node::opt_entries(n.left);
                let ghost r0 = Node::opt_entries(n.right);
                let ghost s = Node::opt_entries(*node);
                if target == n.key {
                    proof {
                        assert(s[l.len() as int] == (target, n.data));
                    }
                    Some(&n.data)
                } else if target < n.key {
                    let res = Node::search_under(&n.left, target);
                    proof {
                        if has_key(s, target) {
                            let i = choose|i: int|
                                0 <= i < s.len() && (#[trigger] s[i]).0 == target;
                            assert(i != l.len());
                            if i > l.len() {
                                assert(s[i] == r0[i - l.len() - 1]);
                                assert(false);
                            }
                            assert(l[i] == s[i]);
                            assert(has_key(l, target));
                        }
                        if res is Some {
                            let d = res->Some_0;
                            let i = choose|i: int|
                                0 <= i < l.len() && #[trigger] l[i] == (target, *d);
                            assert(s[i] == (target, *d));
                        }
                    }
                    res
                } else {
                    let res = Node::search_under(&n.right, target);
                    proof {
                        if has_key(s, target) {
                            let i = choose|i: int|
                                0 <= i < s.len() && (#[trigger] s[i]).0 == target;
                            assert(i != l.len());
                            if i < l.len() {
                                assert(s[i] == l[i]);
                                assert(false);
                            }
                            assert(r0[i - l.len() - 1] == s[i]);
                            assert(has_key(r0, target));
                        }
                        if res is Some {
                            let d = res->Some_0;
                            let i = choose|i: int|
                                0 <= i < r0.len() && #[trigger] r0[i] == (target, *d);
                            assert(s[i + l.len() + 1] == (target, *d));
                        }
                    }
                    res
                }
            },
        }
    }

    /// Descends left from `node` to its leftmost entry, the one listed first
    /// in order.
    fn min_node(node: &Node<V>) -> (r: (u64, &V))
        requires
            node.wf(),
        ensures
            node.entries().len() > 0,
            r.0 == node.entries()[0].0,
            *r.1 == node.entries()[0].1,
        decreases node,
    {
        match &node.left {
            None => {
                proof {
                    assert(Node::opt_entries(node.left) =~= Seq::<(u64, V)>::empty());
                    assert(node.entries()[0] == (node.key, node.data));
                }
                (node.key, &node.data)
            },
            Some(l) => {
                let r = Node::min_node(l);
                proof {
                    assert(node.entries()[0] == Node::opt_entries(node.left)[0]);
                }
                r
            },
        }
    }

    /// Descends right from `node` to its rightmost entry, the one listed
    /// last in order.
    fn max_node(node: &Node<V>) -> (r: (u64, &V))
        requires
            node.wf(),
        ensures
            node.entries().len() > 0,
            r.0 == node.entries().last().0,
            *r.1 == node.entries().last().1,
        decreases node,
    {
        match &node.right {
            None => {
                proof {
                    assert(Node::opt_entries(node.right) =~= Seq::<(u64, V)>::empty());
                    assert(node.entries().last() == (node.key, node.data));
                }
                (node.key, &node.data)
            },
            Some(r0) => {
                let r = Node::max_node(r0);
                proof {
                    let rs = Node::opt_entries(node.right);
                    assert(node.entries().last() == rs[rs.len() - 1]);
                }
                r
            },
        }
    }

    /// Appends the entries of `node`, in order, to `out`.
    fn push_entries(node: &Option<Box<Node<V>>>, out: &mut Vec<(u64, V)>) where V: Copy
        ensures
            final(out)@ == old(out)@ + Node::opt_entries(*node),
        decreases node,
    {
        match node {
            None => {
                proof {
                    assert(out@ + Node::opt_entries(*node) =~= out@);
                }
            },
            Some(n) => {
                Node::push_entries(&n.left, out);
                out.push((n.key, n.data));
                Node::push_entries(&n.right, out);
                proof {
                    assert(out@ =~= old(out)@ + Node::opt_entries(*node));
                }
            },
        }
    }
}

impl<V> View for BST<V> {
    type V = Seq<(u64, V)>;

    /// The tree's entries in in-order traversal order.
    closed spec fn view(&self) -> Seq<(u64, V)> {
        Node::opt_entries(self.root)
    }
}

impl<V> BST<V> {
    /// The tree satisfies the search-tree ordering property. Established by
    /// `new` and preserved by `insert`.
    pub closed spec fn wf(self) -> bool {
        Node::opt_wf(self.root)
    }

    /// Produces an empty tree.
    pub fn new() -> (t: BST<V>)
        ensures
            t.wf(),
            t@ == Seq::<(u64, V)>::empty(),
    {
        BST { root: None }
    }

    /// Inserts `(key, data)`. A key equal to one already present is routed
    /// into the right subtree of the first equal node, so the new entry lands
    /// directly after the entries already carrying that key; nothing is ever
    /// overwritten or rejected, and no rebalancing is performed.
    pub fn insert(&mut self, key: u64, data: V)
        requires
            old(self).wf(),
        ensures
            final(self).wf(),
            final(self)@ == inserted(old(self)@, key, data),
            final(self)@.len() == old(self)@.len() + 1,
    {
        Node::insert_under(&mut self.root, key, data);
        proof {
            lemma_inserted_index(old(self)@, key, data);
        }
    }

    /// Looks `target` up by descending the tree with the insertion rule.
    /// Returns a value stored under `target` exactly when some entry carries
    /// that key. When duplicates of `target` exist, which of their values is
    /// returned depends on the shape the insertion order produced, and is
    /// deliberately left unspecified.
    pub fn search(&self, target: u64) -> (r: Option<&V>)
        requires
            self.wf(),
        ensures
            r.is_some() <==> has_key(self@, target),
            match r {
                Some(d) => exists|i: int|
                    0 <= i < self@.len() && #[trigger] self@[i] == (target, *d),
                None => true,
            },
    {
        Node::search_under(&self.root, target)
    }

    /// Returns the entry with the least key, or `None` on an empty tree.
    /// The entry returned is the first one in order, so among duplicates of
    /// the least key it is the earliest-inserted one.
    pub fn minimum(&self) -> (r: Option<(u64, &V)>)
        requires
            self.wf(),
        ensures
            match r {
                None => self@.len() == 0,
                Some(p) => self@.len() > 0 && p.0 == self@[0].0 && *p.1 == self@[0].1
                    && forall|i: int| 0 <= i < self@.len() ==> p.0 <= (#[trigger] self@[i]).0,
            },
    {
        match &self.root {
            None => None,
            Some(n) => {
                let p = Node::min_node(n);
                proof {
                    lemma_view_sorted(*self);
                }
                Some(p)
            },
        }
    }

    /// Returns the entry with the greatest key, or `None` on an empty tree.
    /// The entry returned is the last one in order, so among duplicates of
    /// the greatest key it is the latest-inserted one.
    pub fn maximum(&self) -> (r: Option<(u64, &V)>)
        requires
            self.wf(),
        ensures
            match r {
                None => self@.len() == 0,
                Some(p) => self@.len() > 0 && p.0 == self@.last().0 && *p.1 == self@.last().1
                    && forall|i: int| 0 <= i < self@.len() ==> p.0 >= (#[trigger] self@[i]).0,
            },
    {
        match &self.root {
            None => None,
            Some(n) => {
                let p = Node::max_node(n);
                proof {
                    lemma_view_sorted(*self);
                }
                Some(p)
            },
        }
    }

    /// Returns a snapshot of all entries in in-order traversal order: left
    /// subtree, node, right subtree. On a well-formed tree the keys come out
    /// in non-decreasing order, equal keys contiguously in insertion order.
    /// The visit touches every entry exactly once and mutates nothing, so
    /// repeating it on an unmodified tree yields the same sequence again.
    pub fn inorder(&self) -> (r: Vec<(u64, V)>) where V: Copy
        ensures
            r@ == self@,
    {
        let mut out: Vec<(u64, V)> = Vec::new();
        Node::push_entries(&self.root, &mut out);
        proof {
            assert(out@ =~= self@);
        }
        out
    }
}

/// Ordering invariant: a well-formed tree lists its entries in
/// non-decreasing key order, whatever sequence of insertions built it.
pub proof fn lemma_view_sorted<V>(t: BST<V>)
    requires
        t.wf(),
    ensures
        sorted_by_key(t@),
{
    match t.root {
        Some(n) => lemma_node_sorted(*n),
        None => {},
    }
}

/// Idempotent traversal: two in-order traversals of the same unmodified
/// tree yield identical entry sequences.
pub proof fn lemma_inorder_repeatable<V>(t: BST<V>, r1: Seq<(u64, V)>, r2: Seq<(u64, V)>)
    requires
        r1 == t@,
        r2 == t@,
    ensures
        r1 == r2,
{
}

proof fn lemma_node_sorted<V>(n: Node<V>)
    requires
        n.wf(),
    ensures
        sorted_by_key(n.entries()),
    decreases n,
{
    let l = Node::opt_entries(n.left);
    let r = Node::opt_entries(n.right);
    let s = n.entries();
    match n.left {
        Some(nl) => lemma_node_sorted(*nl),
        None => {},
    }
    match n.right {
        Some(nr) => lemma_node_sorted(*nr),
        None => {},
    }
    let ll = l.len() as int;
    assert forall|i: int, j: int|
        0 <= i <= j < s.len() implies (#[trigger] s[i]).0 <= (#[trigger] s[j]).0 by {
        if i < ll {
            assert(s[i] == l[i]);
        } else if i == ll {
            assert(s[i] == (n.key, n.data));
        } else {
            assert(s[i] == r[i - ll - 1]);
        }
        if j < ll {
            assert(s[j] == l[j]);
        } else if j == ll {
            assert(s[j] == (n.key, n.data));
        } else {
            assert(s[j] == r[j - ll - 1]);
        }
    }
}

} // verus!
