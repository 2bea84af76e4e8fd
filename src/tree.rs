//! A binary tree stored as a flat arena of nodes addressed by index.
//!
//! The first node of the arena is the root. Links made through this module
//! always point forward: a child has a larger index than its parent. The
//! traversal relies only on that order, so it also stops on any arena.

use vstd::arithmetic::power2::*;
use vstd::prelude::*;
use vstd::set_lib::*;

verus! {

/// One slot of the arena: its links and its payload.
pub struct Node<T> {
    parent: Option<usize>,
    left: Option<usize>,
    right: Option<usize>,
    pub value: T,
}

impl<T> Node<T> {
    pub closed spec fn parent_link(&self) -> Option<usize> {
        self.parent
    }

    pub closed spec fn left_link(&self) -> Option<usize> {
        self.left
    }

    pub closed spec fn right_link(&self) -> Option<usize> {
        self.right
    }

    pub closed spec fn payload(&self) -> T {
        self.value
    }
}

impl<T> std::ops::Deref for Node<T> {
    type Target = T;

    fn deref(&self) -> (r: &T)
        ensures
            *r == self.payload(),
    {
        &self.value
    }
}

/// A binary tree over an arena of nodes; index 0 is the root.
pub struct Tree<T> {
    nodes: Vec<Node<T>>,
}

impl<T> View for Tree<T> {
    type V = Seq<Node<T>>;

    closed spec fn view(&self) -> Seq<Node<T>> {
        self.nodes@
    }
}

impl<T> Tree<T> {
    /// Links of node `i` name nodes of the arena, children after `i` and
    /// the parent before it.
    pub open spec fn links_forward(&self, i: int) -> bool {
        let n = self@[i];
        &&& n.left_link() is Some ==> i < n.left_link()->0 < self@.len()
        &&& n.right_link() is Some ==> i < n.right_link()->0 < self@.len()
        &&& n.parent_link() is Some ==> n.parent_link()->0 < i
    }

    /// Every node's links point into the arena, children forward.
    pub open spec fn wf(&self) -> bool {
        forall|i: int| 0 <= i < self@.len() ==> #[trigger] self.links_forward(i)
    }
}

impl<T> Tree<T> {
    /// Number of nodes in the arena.
    pub fn len(&self) -> (r: usize)
        ensures
            r == self@.len(),
    {
        self.nodes.len()
    }

    /// The node at `index`, if there is one.
    pub fn get(&self, index: usize) -> (r: Option<&Node<T>>)
        ensures
            r == (if index < self@.len() {
                Some(&self@[index as int])
            } else {
                None
            }),
    {
        if index < self.nodes.len() {
            Some(&self.nodes[index])
        } else {
            None
        }
    }

    /// The node at `index`, for writing, if there is one.
    pub fn get_mut(&mut self, index: usize) -> (r: Option<&mut Node<T>>)
        ensures
            index < old(self)@.len() <==> r is Some,
            index < old(self)@.len() ==> *r->0 == old(self)@[index as int]
                && final(self)@ == old(self)@.update(index as int, *final(r->0)),
            index >= old(self)@.len() ==> final(self)@ == old(self)@,
    {
        if index < self.nodes.len() {
            Some(&mut self.nodes[index])
        } else {
            None
        }
    }
}

/// `n` has the links of position `i` in a complete tree of the given depth:
/// parent `(i - 1) / 2`, children `2i + 1` and `2i + 2` above the leaf level.
pub open spec fn complete_node<T>(n: Node<T>, i: int, depth: nat) -> bool {
    &&& n.parent_link() == (if i == 0 {
        None
    } else {
        Some(((i - 1) / 2) as usize)
    })
    &&& if i < pow2(depth) - 1 {
        n.left_link() == Some((2 * i + 1) as usize) && n.right_link() == Some((2 * i + 2) as usize)
    } else {
        n.left_link() is None && n.right_link() is None
    }
}

proof fn lemma_pow2_exceeds(e: nat)
    ensures
        e < pow2(e),
    decreases e,
{
    if e > 0 {
        lemma_pow2_exceeds((e - 1) as nat);
        lemma_pow2_unfold(e);
        lemma_pow2_pos((e - 1) as nat);
    } else {
        lemma2_to64();
    }
}

impl<T> Tree<T> {
    /// Number of nodes of a complete tree of the given depth.
    pub open spec fn complete_len(depth: nat) -> nat {
        (pow2((depth + 1) as nat) - 1) as nat
    }

    /// Index of the first leaf of a complete tree of the given depth.
    pub open spec fn first_leaf(depth: nat) -> nat {
        (pow2(depth) - 1) as nat
    }

    /// Node `i` carries the links of position `i` in a complete tree of
    /// the given depth, counted level by level from the root.
    pub open spec fn complete_at(&self, i: int, depth: nat) -> bool {
        complete_node(self@[i], i, depth)
    }

    /// The arena holds exactly a complete binary tree of the given depth.
    pub open spec fn is_complete(&self, depth: nat) -> bool {
        &&& self@.len() == Self::complete_len(depth)
        &&& forall|i: int| 0 <= i < self@.len() ==> #[trigger] self.complete_at(i, depth)
    }

    /// A node with no child.
    pub open spec fn is_leaf_at(&self, i: int) -> bool {
        self@[i].left_link() is None && self@[i].right_link() is None
    }

    /// Indices of the leaves.
    pub open spec fn leaves(&self) -> Set<int> {
        Set::new(|i: int| 0 <= i < self@.len() && self.is_leaf_at(i))
    }

    /// Builds a complete binary tree of the given depth: `2^(depth+1) - 1`
    /// nodes, of which the last `2^depth` are leaves. Node `i` holds
    /// `builder(i)`.
    pub fn new_complete<F: Fn(usize) -> T>(depth: usize, builder: F) -> (r: Self)
        requires
            pow2((depth + 1) as nat) <= usize::MAX,
            forall|i: usize| i < Self::complete_len(depth as nat) ==> builder.requires((i,)),
        ensures
            r.is_complete(depth as nat),
            r.wf(),
            forall|i: int|
                0 <= i < r@.len() ==> builder.ensures((i as usize,), #[trigger] r@[i].payload()),
    {
        proof {
            lemma_pow2_exceeds((depth + 1) as nat);
            lemma2_to64();
        }
        let mut node_n: usize = 1;
        let mut e: usize = 0;
        while e < depth + 1
            invariant
                depth < usize::MAX,
                pow2((depth + 1) as nat) <= usize::MAX,
                e <= depth + 1,
                node_n == pow2(e as nat),
            decreases depth + 1 - e,
        {
            proof {
                lemma_pow2_unfold((e + 1) as nat);
                if e + 1 < depth + 1 {
                    lemma_pow2_strictly_increases((e + 1) as nat, (depth + 1) as nat);
                }
            }
            node_n = node_n * 2;
            e = e + 1;
        }
        proof {
            lemma_pow2_unfold((depth + 1) as nat);
            lemma_pow2_pos(depth as nat);
        }
        let half = node_n / 2;
        let mut nodes: Vec<Node<T>> = Vec::new();
        let mut i: usize = 1;
        while i < node_n
            invariant
                1 <= i <= node_n,
                node_n == pow2(depth as nat + 1),
                half == pow2(depth as nat),
                node_n == 2 * half,
                nodes@.len() == i - 1,
                forall|j: usize| j < Self::complete_len(depth as nat) ==> builder.requires((j,)),
                forall|k: int|
                    0 <= k < nodes@.len() ==> builder.ensures((k as usize,), #[trigger] nodes@[k].value),
                forall|k: int|
                    0 <= k < nodes@.len() ==> complete_node(#[trigger] nodes@[k], k, depth as nat),
            decreases node_n - i,
        {
            let parent = if i == 1 {
                None
            } else {
                Some(i / 2 - 1)
            };
            let left = if i >= half {
                None
            } else {
                Some(i * 2 - 1)
            };
            let right = if i >= half {
                None
            } else {
                Some(i * 2)
            };
            let value = builder(i - 1);
            nodes.push(Node { parent, left, right, value });
            i = i + 1;
        }
        Tree { nodes }
    }

    /// Replaces the whole arena by a complete tree of the given depth.
    pub fn set_new_complete<F: Fn(usize) -> T>(&mut self, depth: usize, builder: F)
        requires
            pow2((depth + 1) as nat) <= usize::MAX,
            forall|i: usize| i < Self::complete_len(depth as nat) ==> builder.requires((i,)),
        ensures
            final(self).is_complete(depth as nat),
            final(self).wf(),
            forall|i: int|
                0 <= i < final(self)@.len() ==> builder.ensures(
                    (i as usize,),
                    #[trigger] final(self)@[i].payload(),
                ),
    {
        let complete = Tree::<T>::new_complete(depth, builder);
        self.nodes = complete.nodes;
    }
}

impl<T> Tree<T> {
    /// Appends a node with no links; returns its index.
    pub fn new_node(&mut self, value: T) -> (r: usize)
        requires
            old(self)@.len() < usize::MAX,
        ensures
            r == old(self)@.len(),
            final(self)@.len() == old(self)@.len() + 1,
            final(self)@.take(r as int) == old(self)@,
            final(self)@[r as int].parent_link() is None,
            final(self)@[r as int].left_link() is None,
            final(self)@[r as int].right_link() is None,
            final(self)@[r as int].payload() == value,
            old(self).wf() ==> final(self).wf(),
    {
        let node = Node { parent: None, left: None, right: None, value: value };
        let index = self.nodes.len();
        self.nodes.push(node);
        proof {
            assert(self.nodes@.take(index as int) =~= old(self).nodes@);
            if old(self).wf() {
                assert forall|i: int| 0 <= i < self@.len() implies #[trigger] self.links_forward(
                    i,
                ) by {
                    if i < index {
                        assert(old(self).links_forward(i));
                    }
                }
            }
        }
        index
    }

    /// Appends a node holding `value` as the left child of node `parent_id`
    /// and returns its index; `None`, and no change, when `parent_id` names
    /// no node. A left child that was there before stays in the arena,
    /// unlinked from the parent.
    pub fn set_left(&mut self, parent_id: usize, value: T) -> (r: Option<usize>)
        requires
            old(self)@.len() < usize::MAX,
        ensures
            parent_id >= old(self)@.len() ==> r is None && final(self)@ == old(self)@,
            parent_id < old(self)@.len() ==> {
                let c = old(self)@.len() as int;
                &&& r == Some(c as usize)
                &&& final(self)@.len() == c + 1
                &&& forall|i: int|
                    0 <= i < c && i != parent_id ==> #[trigger] final(self)@[i] == old(self)@[i]
                &&& final(self)@[parent_id as int].left_link() == Some(c as usize)
                &&& final(self)@[parent_id as int].right_link() == old(self)@[parent_id as int].right_link()
                &&& final(self)@[parent_id as int].parent_link() == old(self)@[parent_id as int].parent_link()
                &&& final(self)@[parent_id as int].payload() == old(self)@[parent_id as int].payload()
                &&& final(self)@[c].parent_link() == Some(parent_id)
                &&& final(self)@[c].left_link() is None
                &&& final(self)@[c].right_link() is None
                &&& final(self)@[c].payload() == value
            },
            old(self).wf() ==> final(self).wf(),
    {
        if parent_id >= self.nodes.len() {
            return None;
        }
        let child_id = self.new_node(value);
        self.nodes[parent_id].left = Some(child_id);
        self.nodes[child_id].parent = Some(parent_id);
        proof {
            if old(self).wf() {
                assert forall|i: int| 0 <= i < self@.len() implies #[trigger] self.links_forward(
                    i,
                ) by {
                    if i < child_id {
                        assert(old(self).links_forward(i));
                    }
                }
            }
        }
        Some(child_id)
    }

    /// Appends a node holding `value` as the right child of node `parent_id`
    /// and returns its index; `None`, and no change, when `parent_id` names
    /// no node. A right child that was there before stays in the arena,
    /// unlinked from the parent.
    pub fn set_right(&mut self, parent_id: usize, value: T) -> (r: Option<usize>)
        requires
            old(self)@.len() < usize::MAX,
        ensures
            parent_id >= old(self)@.len() ==> r is None && final(self)@ == old(self)@,
            parent_id < old(self)@.len() ==> {
                let c = old(self)@.len() as int;
                &&& r == Some(c as usize)
                &&& final(self)@.len() == c + 1
                &&& forall|i: int|
                    0 <= i < c && i != parent_id ==> #[trigger] final(self)@[i] == old(self)@[i]
                &&& final(self)@[parent_id as int].right_link() == Some(c as usize)
                &&& final(self)@[parent_id as int].left_link() == old(self)@[parent_id as int].left_link()
                &&& final(self)@[parent_id as int].parent_link() == old(self)@[parent_id as int].parent_link()
                &&& final(self)@[parent_id as int].payload() == old(self)@[parent_id as int].payload()
                &&& final(self)@[c].parent_link() == Some(parent_id)
                &&& final(self)@[c].left_link() is None
                &&& final(self)@[c].right_link() is None
                &&& final(self)@[c].payload() == value
            },
            old(self).wf() ==> final(self).wf(),
    {
        if parent_id >= self.nodes.len() {
            return None;
        }
        let child_id = self.new_node(value);
        self.nodes[parent_id].right = Some(child_id);
        self.nodes[child_id].parent = Some(parent_id);
        proof {
            if old(self).wf() {
                assert forall|i: int| 0 <= i < self@.len() implies #[trigger] self.links_forward(
                    i,
                ) by {
                    if i < child_id {
                        assert(old(self).links_forward(i));
                    }
                }
            }
        }
        Some(child_id)
    }

    /// The left child of `node`, when it has one in this arena.
    pub fn left(&self, node: &Node<T>) -> (r: Option<&Node<T>>)
        ensures
            r is Some <==> node.left_link() is Some && node.left_link()->0 < self@.len(),
            r is Some ==> *r->0 == self@[node.left_link()->0 as int],
    {
        if let Some(left_id) = node.left {
            self.get(left_id)
        } else {
            None
        }
    }

    /// The right child of `node`, when it has one in this arena.
    pub fn right(&self, node: &Node<T>) -> (r: Option<&Node<T>>)
        ensures
            r is Some <==> node.right_link() is Some && node.right_link()->0 < self@.len(),
            r is Some ==> *r->0 == self@[node.right_link()->0 as int],
    {
        if let Some(right_id) = node.right {
            self.get(right_id)
        } else {
            None
        }
    }

    /// The parent of `node`, when it has one in this arena.
    pub fn parent(&self, node: &Node<T>) -> (r: Option<&Node<T>>)
        ensures
            r is Some <==> node.parent_link() is Some && node.parent_link()->0 < self@.len(),
            r is Some ==> *r->0 == self@[node.parent_link()->0 as int],
    {
        if let Some(parent_id) = node.parent {
            self.get(parent_id)
        } else {
            None
        }
    }
}

impl<T> Tree<T> {
    /// Indices of the subtree under `idx`, children before their parent,
    /// the left subtree before the right one. A link is followed only when
    /// it points forward to a node of the arena.
    pub open spec fn post_order_from(&self, idx: int) -> Seq<usize>
        decreases self@.len() - idx,
    {
        if 0 <= idx < self@.len() {
            let n = self@[idx];
            let l = if n.left_link() is Some && idx < n.left_link()->0 < self@.len() {
                self.post_order_from(n.left_link()->0 as int)
            } else {
                Seq::empty()
            };
            let r = if n.right_link() is Some && idx < n.right_link()->0 < self@.len() {
                self.post_order_from(n.right_link()->0 as int)
            } else {
                Seq::empty()
            };
            l + r + seq![idx as usize]
        } else {
            Seq::empty()
        }
    }

    /// Post-order of the whole tree, from the root.
    pub open spec fn post_order(&self) -> Seq<usize> {
        self.post_order_from(0)
    }

    /// Indices of all nodes reachable from the root, in post-order: left
    /// subtree, right subtree, then the node itself.
    pub fn post_trav(&self) -> (r: Vec<usize>)
        ensures
            r@ == self.post_order(),
    {
        let mut order: Vec<usize> = Vec::new();
        if self.nodes.len() > 0 {
            self.post_trav_inner(0, &mut order);
        } else {
            proof {
                assert(order@ =~= self.post_order());
            }
        }
        order
    }

    fn post_trav_inner(&self, idx: usize, order: &mut Vec<usize>)
        requires
            idx < self@.len(),
        ensures
            final(order)@ == old(order)@ + self.post_order_from(idx as int),
        decreases self@.len() - idx,
    {
        let mut left_idx: usize = 0;
        let mut right_idx: usize = 0;
        let node = &self.nodes[idx];
        if let Some(c) = node.left {
            if idx < c && c < self.nodes.len() {
                left_idx = c;
            }
        }
        if let Some(c) = node.right {
            if idx < c && c < self.nodes.len() {
                right_idx = c;
            }
        }
        if left_idx > 0 {
            self.post_trav_inner(left_idx, order);
        }
        if right_idx > 0 {
            self.post_trav_inner(right_idx, order);
        }
        order.push(idx);
        proof {
            assert(order@ =~= old(order)@ + self.post_order_from(idx as int));
        }
    }
}

impl<T> Tree<T> {
    /// In a complete tree of depth `depth`, the leaves are exactly the last
    /// `2^depth` nodes.
    pub proof fn lemma_complete_leaves(&self, depth: nat)
        requires
            self.is_complete(depth),
        ensures
            self.leaves() == set_int_range(Self::first_leaf(depth) as int, self@.len() as int),
            self.leaves().finite(),
            self.leaves().len() == pow2(depth),
    {
        lemma_pow2_unfold(depth + 1);
        lemma_pow2_pos(depth);
        let lo = Self::first_leaf(depth) as int;
        let hi = self@.len() as int;
        assert forall|i: int| self.leaves().contains(i) <==> set_int_range(lo, hi).contains(i) by {
            if 0 <= i < hi {
                assert(self.complete_at(i, depth));
            }
        }
        assert(self.leaves() =~= set_int_range(lo, hi));
        lemma_int_range(lo, hi);
    }

    /// Setting the split count to `n` builds a tree of depth `n + 1`, which
    /// has `2^(n+2) - 1` nodes and `2^(n+1)` leaves: two arcs for each of the
    /// `2^n` curve segments.
    pub proof fn lemma_split_count_shape(&self, n: nat)
        requires
            self.is_complete(n + 1),
        ensures
            self@.len() == pow2(n + 2) - 1,
            self.leaves().len() == pow2(n + 1),
            self.leaves().len() == 2 * pow2(n),
    {
        self.lemma_complete_leaves(n + 1);
        lemma_pow2_unfold(n + 1);
        lemma_pow2_pos(n + 2);
    }
}

/// The indices below `n`, as a set of `usize`.
proof fn lemma_index_set_len(n: usize)
    ensures
        Set::new(|x: usize| x < n).finite(),
        Set::new(|x: usize| x < n).len() == n,
    decreases n,
{
    if n == 0 {
        assert(Set::new(|x: usize| x < n) =~= Set::<usize>::empty());
    } else {
        let m = (n - 1) as usize;
        lemma_index_set_len(m);
        assert(Set::new(|x: usize| x < m).insert(m) =~= Set::new(|x: usize| x < n));
    }
}

impl<T> Tree<T> {
    /// Node `c` is a child of node `x` that the traversal follows.
    pub open spec fn followed_child(&self, x: int, c: int) -> bool {
        &&& x < c < self@.len()
        &&& (self@[x].left_link() == Some(c as usize) || self@[x].right_link() == Some(
            c as usize,
        ))
    }

    proof fn lemma_post_order_range(&self, k: int)
        requires
            0 <= k < self@.len(),
            self@.len() <= usize::MAX,
        ensures
            self.post_order_from(k).len() > 0,
            self.post_order_from(k).last() == k,
            forall|i: int|
                0 <= i < self.post_order_from(k).len() ==> k <= #[trigger] self.post_order_from(
                    k,
                )[i] < self@.len(),
        decreases self@.len() - k,
    {
        let n = self@[k];
        if n.left is Some && k < n.left->0 < self@.len() {
            self.lemma_post_order_range(n.left->0 as int);
        }
        if n.right is Some && k < n.right->0 < self@.len() {
            self.lemma_post_order_range(n.right->0 as int);
        }
        let o = self.post_order_from(k);
        let l = if n.left is Some && k < n.left->0 < self@.len() {
            self.post_order_from(n.left->0 as int)
        } else {
            Seq::empty()
        };
        let r = if n.right is Some && k < n.right->0 < self@.len() {
            self.post_order_from(n.right->0 as int)
        } else {
            Seq::empty()
        };
        assert(o == l + r + seq![k as usize]);
        assert forall|i: int| 0 <= i < o.len() implies k <= #[trigger] o[i] < self@.len() by {
            if i < l.len() {
                assert(o[i] == l[i]);
            } else if i < l.len() + r.len() {
                assert(o[i] == r[i - l.len()]);
            }
        }
    }

    /// The traversal from `k` contains the traversal from every node it
    /// reaches.
    proof fn lemma_post_order_subtree(&self, k: int, y: usize)
        requires
            0 <= k < self@.len(),
            self@.len() <= usize::MAX,
            self.post_order_from(k).contains(y),
        ensures
            forall|z: usize|
                self.post_order_from(y as int).contains(z) ==> #[trigger] self.post_order_from(
                    k,
                ).contains(z),
        decreases self@.len() - k,
    {
        let n = self@[k];
        let o = self.post_order_from(k);
        let l = if n.left is Some && k < n.left->0 < self@.len() {
            self.post_order_from(n.left->0 as int)
        } else {
            Seq::empty()
        };
        let r = if n.right is Some && k < n.right->0 < self@.len() {
            self.post_order_from(n.right->0 as int)
        } else {
            Seq::empty()
        };
        assert(o == l + r + seq![k as usize]);
        let i = choose|i: int| 0 <= i < o.len() && o[i] == y;
        if i < l.len() {
            assert(l[i] == y);
            self.lemma_post_order_subtree(n.left->0 as int, y);
            assert forall|z: usize| self.post_order_from(y as int).contains(z) implies o.contains(z) by {
                assert(l.contains(z));
                let m = choose|m: int| 0 <= m < l.len() && l[m] == z;
                assert(o[m] == z);
            }
        } else if i < l.len() + r.len() {
            assert(r[i - l.len()] == y);
            self.lemma_post_order_subtree(n.right->0 as int, y);
            assert forall|z: usize| self.post_order_from(y as int).contains(z) implies o.contains(z) by {
                assert(r.contains(z));
                let m = choose|m: int| 0 <= m < r.len() && r[m] == z;
                assert(o[l.len() + m] == z);
            }
        } else {
            assert(y == k);
        }
    }
}

impl<T> Tree<T> {
    /// In a complete tree, the traversal from node `k` on level `lv` lists
    /// `2^(depth - lv + 1) - 1` nodes.
    proof fn lemma_complete_subtree_len(&self, depth: nat, k: int, lv: nat)
        requires
            self.is_complete(depth),
            self@.len() <= usize::MAX,
            lv <= depth,
            pow2(lv) - 1 <= k < pow2(lv + 1) - 1,
        ensures
            self.post_order_from(k).len() == pow2((depth - lv + 1) as nat) - 1,
        decreases depth - lv,
    {
        lemma_pow2_unfold(lv + 1);
        lemma_pow2_unfold(depth + 1);
        lemma_pow2_unfold((depth - lv + 1) as nat);
        lemma_pow2_pos(lv);
        lemma_pow2_pos((depth - lv) as nat);
        if lv + 1 < depth {
            lemma_pow2_strictly_increases(lv + 1, depth);
        }
        assert(self.complete_at(k, depth));
        if lv == depth {
            lemma2_to64();
        } else {
            lemma_pow2_unfold(lv + 2);
            lemma_pow2_unfold(depth);
            lemma_pow2_unfold((depth - lv) as nat);
            if lv + 2 <= depth {
                lemma_pow2_strictly_increases(lv + 2, depth + 1);
            }
            self.lemma_complete_subtree_len(depth, 2 * k + 1, lv + 1);
            self.lemma_complete_subtree_len(depth, 2 * k + 2, lv + 1);
        }
    }

    proof fn lemma_complete_covers(&self, depth: nat, x: usize)
        requires
            self.is_complete(depth),
            self@.len() <= usize::MAX,
            x < self@.len(),
        ensures
            self.post_order().contains(x),
        decreases x,
    {
        if x == 0 {
            self.lemma_post_order_range(0);
            let o = self.post_order();
            assert(o[o.len() - 1] == x);
        } else {
            let p = ((x - 1) / 2) as usize;
            self.lemma_complete_covers(depth, p);
            lemma_pow2_unfold(depth + 1);
            lemma_pow2_pos(depth);
            assert(p < pow2(depth) - 1);
            assert(self.complete_at(p as int, depth));
            assert(self@[p as int].left == Some((2 * p + 1) as usize));
            assert(self.complete_at(x as int, depth));
            let op = self.post_order_from(p as int);
            self.lemma_post_order_range(x as int);
            let ox = self.post_order_from(x as int);
            let l = self.post_order_from(2 * p + 1);
            let r = self.post_order_from(2 * p + 2);
            assert(op == l + r + seq![p]);
            if x == 2 * p + 1 {
                assert(op[l.len() - 1] == x);
            } else {
                assert(op[l.len() + r.len() - 1] == x);
            }
            self.lemma_post_order_subtree(0, p);
        }
    }

    /// The post-order of a complete tree lists every node exactly once, each
    /// child before its parent, and the leaves from left to right.
    pub proof fn lemma_post_order_complete(&self, depth: nat)
        requires
            self.is_complete(depth),
            self@.len() <= usize::MAX,
        ensures
            self.post_order().len() == self@.len(),
            forall|x: usize| x < self@.len() ==> #[trigger] self.post_order().contains(x),
            self.post_order().no_duplicates(),
            forall|i: int, j: int|
                0 <= i < self.post_order().len() && 0 <= j < self.post_order().len()
                    && self.followed_child(
                    #[trigger] self.post_order()[i] as int,
                    #[trigger] self.post_order()[j] as int,
                ) ==> j < i,
            forall|x: int, c: int|
                0 <= x < self@.len() ==> (#[trigger] self.followed_child(x, c) <==> x
                    < Self::first_leaf(depth) && (c == 2 * x + 1 || c == 2 * x + 2)),
            forall|i: int, j: int|
                0 <= i < j < self.post_order().len() && #[trigger] self.post_order()[i]
                    >= Self::first_leaf(depth) && #[trigger] self.post_order()[j]
                    >= Self::first_leaf(depth) ==> self.post_order()[i] < self.post_order()[j],
    {
        let o = self.post_order();
        let n = self@.len() as usize;
        lemma2_to64();
        lemma_pow2_unfold(depth + 1);
        lemma_pow2_pos(depth);
        self.lemma_complete_subtree_len(depth, 0, 0);
        assert forall|x: usize| x < self@.len() implies #[trigger] o.contains(x) by {
            self.lemma_complete_covers(depth, x);
        }
        self.lemma_post_order_range(0);
        assert(o.to_set() =~= Set::new(|x: usize| x < n));
        lemma_index_set_len(n);
        o.lemma_no_dup_set_cardinality();
        self.lemma_post_order_children_first(0);
        self.lemma_complete_leaf_span(depth, 0, 0);
        assert forall|x: int, c: int| 0 <= x < self@.len() implies (#[trigger] self.followed_child(
            x,
            c,
        ) <==> x < Self::first_leaf(depth) && (c == 2 * x + 1 || c == 2 * x + 2)) by {
            assert(self.complete_at(x, depth));
        }
    }
}

impl<T> Tree<T> {
    proof fn lemma_child_listed(&self, x: int, c: int)
        requires
            0 <= x,
            self@.len() <= usize::MAX,
            self.followed_child(x, c),
        ensures
            self.post_order_from(x).contains(c as usize),
    {
        let n = self@[x];
        let o = self.post_order_from(x);
        let l = if n.left is Some && x < n.left->0 < self@.len() {
            self.post_order_from(n.left->0 as int)
        } else {
            Seq::empty()
        };
        let r = if n.right is Some && x < n.right->0 < self@.len() {
            self.post_order_from(n.right->0 as int)
        } else {
            Seq::empty()
        };
        assert(o == l + r + seq![x as usize]);
        self.lemma_post_order_range(c);
        if n.left == Some(c as usize) {
            assert(o[l.len() - 1] == c);
        } else {
            assert(o[l.len() + r.len() - 1] == c);
        }
    }

    /// Where the traversal from `k` lists no node twice, it lists every
    /// followed child before its parent.
    proof fn lemma_post_order_children_first(&self, k: int)
        requires
            0 <= k < self@.len(),
            self@.len() <= usize::MAX,
            self.post_order_from(k).no_duplicates(),
        ensures
            forall|i: int, j: int|
                0 <= i < self.post_order_from(k).len() && 0 <= j < self.post_order_from(k).len()
                    && self.followed_child(
                    #[trigger] self.post_order_from(k)[i] as int,
                    #[trigger] self.post_order_from(k)[j] as int,
                ) ==> j < i,
        decreases self@.len() - k,
    {
        let n = self@[k];
        let o = self.post_order_from(k);
        let has_l = n.left is Some && k < n.left->0 < self@.len();
        let has_r = n.right is Some && k < n.right->0 < self@.len();
        let l = if has_l {
            self.post_order_from(n.left->0 as int)
        } else {
            Seq::empty()
        };
        let r = if has_r {
            self.post_order_from(n.right->0 as int)
        } else {
            Seq::empty()
        };
        assert(o == l + r + seq![k as usize]);
        assert(l.no_duplicates()) by {
            assert forall|a: int, b: int| 0 <= a < l.len() && 0 <= b < l.len() && a != b implies l[a]
                != l[b] by {
                assert(o[a] == l[a] && o[b] == l[b]);
            }
        }
        assert(r.no_duplicates()) by {
            assert forall|a: int, b: int| 0 <= a < r.len() && 0 <= b < r.len() && a != b implies r[a]
                != r[b] by {
                assert(o[l.len() + a] == r[a] && o[l.len() + b] == r[b]);
            }
        }
        if has_l {
            self.lemma_post_order_children_first(n.left->0 as int);
            self.lemma_post_order_range(n.left->0 as int);
        }
        if has_r {
            self.lemma_post_order_children_first(n.right->0 as int);
            self.lemma_post_order_range(n.right->0 as int);
        }
        assert forall|i: int, j: int|
            0 <= i < o.len() && 0 <= j < o.len() && self.followed_child(
                #[trigger] o[i] as int,
                #[trigger] o[j] as int,
            ) implies j < i by {
            let x = o[i];
            let c = o[j];
            self.lemma_post_order_range(c as int);
            let oc = self.post_order_from(c as int);
            assert(oc[oc.len() - 1] == c);
            if i == o.len() - 1 {
                assert(x == k);
                if self@[x as int].left == Some(c) {
                    assert(o[l.len() - 1] == c);
                } else {
                    assert(o[l.len() + r.len() - 1] == c);
                }
            } else if i < l.len() {
                assert(l[i] == x);
                self.lemma_post_order_subtree(n.left->0 as int, x);
                self.lemma_child_listed(x as int, c as int);
                assert(l.contains(c));
                let m = choose|m: int| 0 <= m < l.len() && l[m] == c;
                assert(o[m] == c);
                assert(j == m);
                assert(self.followed_child(l[i] as int, l[m] as int));
            } else {
                let i2 = i - l.len();
                assert(r[i2] == x);
                self.lemma_post_order_subtree(n.right->0 as int, x);
                self.lemma_child_listed(x as int, c as int);
                assert(r.contains(c));
                let m = choose|m: int| 0 <= m < r.len() && r[m] == c;
                assert(o[l.len() + m] == c);
                assert(j == l.len() + m);
                assert(self.followed_child(r[i2] as int, r[m] as int));
            }
        }
    }
}

impl<T> Tree<T> {
    /// In a complete tree, the leaves listed from node `k` on level `lv` are
    /// the range of `2^(depth - lv)` leaves under `k`, in increasing order.
    proof fn lemma_complete_leaf_span(&self, depth: nat, k: int, lv: nat)
        requires
            self.is_complete(depth),
            self@.len() <= usize::MAX,
            lv <= depth,
            pow2(lv) - 1 <= k < pow2(lv + 1) - 1,
        ensures
            forall|i: int|
                0 <= i < self.post_order_from(k).len() && #[trigger] self.post_order_from(k)[i]
                    >= Self::first_leaf(depth) ==> (k + 1) * pow2((depth - lv) as nat) - 1
                    <= self.post_order_from(k)[i] < (k + 2) * pow2((depth - lv) as nat) - 1,
            forall|i: int, j: int|
                0 <= i < j < self.post_order_from(k).len() && #[trigger] self.post_order_from(k)[i]
                    >= Self::first_leaf(depth) && #[trigger] self.post_order_from(k)[j]
                    >= Self::first_leaf(depth) ==> self.post_order_from(k)[i]
                    < self.post_order_from(k)[j],
        decreases depth - lv,
    {
        let m = (depth - lv) as nat;
        lemma_pow2_unfold(lv + 1);
        lemma_pow2_unfold(depth + 1);
        lemma_pow2_pos(lv);
        if lv + 1 < depth {
            lemma_pow2_strictly_increases(lv + 1, depth);
        }
        assert(self.complete_at(k, depth));
        let o = self.post_order_from(k);
        if lv == depth {
            lemma2_to64();
            assert(o =~= seq![k as usize]);
        } else {
            lemma_pow2_unfold(lv + 2);
            lemma_pow2_unfold(m);
            if lv + 2 <= depth {
                lemma_pow2_strictly_increases(lv + 2, depth + 1);
            }
            let p = pow2((m - 1) as nat);
            assert(pow2(m) == 2 * p);
            let a = 2 * k + 1;
            let b = 2 * k + 2;
            self.lemma_complete_leaf_span(depth, a, lv + 1);
            self.lemma_complete_leaf_span(depth, b, lv + 1);
            let l = self.post_order_from(a);
            let r = self.post_order_from(b);
            assert(o == l + r + seq![k as usize]);
            assert((a + 1) * p == (k + 1) * pow2(m)) by (nonlinear_arith)
                requires
                    pow2(m) == 2 * p,
                    a == 2 * k + 1,
            ;
            assert((b + 1) * p == (a + 1) * p + p) by (nonlinear_arith)
                requires
                    b == a + 1,
            ;
            assert((b + 1) * p == (k + 2) * pow2(m) - p) by (nonlinear_arith)
                requires
                    pow2(m) == 2 * p,
                    b == 2 * k + 2,
            ;
            assert((a + 1) * p + p == (a + 2) * p) by (nonlinear_arith);
            assert((b + 1) * p + p == (b + 2) * p) by (nonlinear_arith);
            assert(k < Self::first_leaf(depth));
            assert((b + 1) * p + p == (k + 2) * pow2(m)) by (nonlinear_arith)
                requires
                    pow2(m) == 2 * p,
                    b == 2 * k + 2,
            ;
            assert forall|i: int|
                0 <= i < o.len() && #[trigger] o[i] >= Self::first_leaf(depth) implies (k + 1)
                * pow2(m) - 1 <= o[i] < (k + 2) * pow2(m) - 1 by {
                if i < l.len() {
                    assert(o[i] == l[i]);
                } else if i < l.len() + r.len() {
                    assert(o[i] == r[i - l.len()]);
                } else {
                    assert(o[i] == k);
                }
            }
            assert forall|i: int, j: int|
                0 <= i < j < o.len() && #[trigger] o[i] >= Self::first_leaf(depth) && #[trigger] o[j]
                    >= Self::first_leaf(depth) implies o[i] < o[j] by {
                if j < l.len() {
                    assert(o[i] == l[i] && o[j] == l[j]);
                } else if j < l.len() + r.len() {
                    assert(o[j] == r[j - l.len()]);
                    if i < l.len() {
                        assert(o[i] == l[i]);
                    } else {
                        assert(o[i] == r[i - l.len()]);
                    }
                }
            }
        }
    }
}

} // verus!
