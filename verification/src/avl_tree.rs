//! A self-balancing binary search tree of key/value pairs: lookups walk by
//! key, inserts rebalance by rotation, and the in-order walk lists the
//! keys in non-decreasing order.
//!
//! What is verified: the search order, the stored heights, the pair count
//! and the contents of every operation.  The balance bound itself — that
//! sibling subtree heights never differ by more than one — is not part of
//! the invariant and is not proved; the rebalancing is exercised by the
//! rotations and holds at run time, but only the tree's correctness, not
//! its shape, is guaranteed by the contracts.

use crate::arraylist::ArrayListComparable;
use vstd::prelude::*;

verus! {

broadcast use vstd::seq_lib::group_to_multiset_ensures;

/// Which child of a node.
#[derive(PartialEq, Eq, Structural, Clone, Copy, Debug)]
pub enum AVLTreeNodeSide {
    AvlTreeNodeLeft,
    AvlTreeNodeRight,
}

/// One node: a key, its value, the two subtrees and the height of the
/// subtree rooted here.
pub struct AVLTreeNode<T> {
    pub left: Option<Box<AVLTreeNode<T>>>,
    pub right: Option<Box<AVLTreeNode<T>>>,
    pub key: T,
    pub value: T,
    pub height: i32,
}

/// A search tree ordered by the comparison callback, which must follow the
/// keys' own order.
pub struct AVLTree<T, F: Fn(T, T) -> i32> {
    pub root_node: Option<Box<AVLTreeNode<T>>>,
    pub compare_func: F,
    pub num_nodes: u32,
}

/// The key/value pairs of the subtree, in in-order sequence.
pub open spec fn avl_pairs<T>(node: Option<Box<AVLTreeNode<T>>>) -> Seq<(T, T)>
    decreases node,
{
    match node {
        None => Seq::empty(),
        Some(n) => avl_pairs(n.left).add(seq![(n.key, n.value)].add(avl_pairs(n.right))),
    }
}

/// The search order: every key on the left comes no later than the node's,
/// every key on the right no earlier, recursively.
pub open spec fn avl_bst_ok<T: ArrayListComparable>(node: Option<Box<AVLTreeNode<T>>>) -> bool
    decreases node,
{
    match node {
        None => true,
        Some(n) => {
            &&& forall|i: int|
                0 <= i < avl_pairs(n.left).len() ==> (#[trigger] avl_pairs(n.left)[i]).0.key()
                    <= n.key.key()
            &&& forall|i: int|
                0 <= i < avl_pairs(n.right).len() ==> (#[trigger] avl_pairs(n.right)[i]).0.key()
                    >= n.key.key()
            &&& avl_bst_ok(n.left)
            &&& avl_bst_ok(n.right)
        },
    }
}

/// The height of the subtree.
pub open spec fn avl_height<T>(node: Option<Box<AVLTreeNode<T>>>) -> int
    decreases node,
{
    match node {
        None => 0,
        Some(n) => 1 + if avl_height(n.left) > avl_height(n.right) {
            avl_height(n.left)
        } else {
            avl_height(n.right)
        },
    }
}

/// Every node's stored height is the height of its subtree.
pub open spec fn avl_heights_ok<T>(node: Option<Box<AVLTreeNode<T>>>) -> bool
    decreases node,
{
    match node {
        None => true,
        Some(n) => n.height == avl_height(node) && avl_heights_ok(n.left) && avl_heights_ok(
            n.right,
        ),
    }
}

/// A subtree's height never exceeds the number of pairs it holds.
proof fn lemma_avl_height_le_len<T>(node: Option<Box<AVLTreeNode<T>>>)
    ensures
        0 <= avl_height(node) <= avl_pairs(node).len(),
    decreases node,
{
    match node {
        None => {},
        Some(n) => {
            lemma_avl_height_le_len(n.left);
            lemma_avl_height_le_len(n.right);
        },
    }
}

/// The comparison callback follows the keys, by value.
pub open spec fn cmp_agrees_val<T: ArrayListComparable, F: Fn(T, T) -> i32>(f: F) -> bool {
    &&& forall|a: T, b: T| #[trigger] call_requires(f, (a, b))
    &&& forall|a: T, b: T, r: i32|
        #[trigger] call_ensures(f, (a, b), r) ==> ((r < 0 <==> a.key() < b.key()) && (r == 0
            <==> a.key() == b.key()) && (r > 0 <==> a.key() > b.key()))
}

impl<T: ArrayListComparable + Copy, F: Fn(T, T) -> i32> AVLTree<T, F> {
    /// The order and height book-keeping hold, the pair count is exact and
    /// the callback follows the keys.  Nothing here bounds the height
    /// difference of siblings: the tree's balance is maintained by the
    /// rotations but left unproved.
    pub open spec fn wf(self) -> bool {
        &&& avl_bst_ok(self.root_node)
        &&& avl_heights_ok(self.root_node)
        &&& self.num_nodes == avl_pairs(self.root_node).len()
        &&& cmp_agrees_val(self.compare_func)
    }
}

/// Creates an empty tree ordered by the given comparison callback.
pub fn avl_tree_new<T: ArrayListComparable + Copy, F: Fn(T, T) -> i32>(compare_func: F) -> (r:
    Option<AVLTree<T, F>>)
    ensures
        r matches Some(t) && t.root_node is None && t.num_nodes == 0 && t.compare_func
            == compare_func && (cmp_agrees_val(compare_func) ==> t.wf()),
{
    Some(AVLTree { root_node: None, compare_func, num_nodes: 0 })
}

/// The root of the tree, while it has one.
pub fn avl_tree_root_node<T: ArrayListComparable + Copy, F: Fn(T, T) -> i32>(
    tree: &AVLTree<T, F>,
) -> (r: Option<&Box<AVLTreeNode<T>>>)
    ensures
        tree.root_node is Some <==> r is Some,
        r matches Some(n) ==> Some(*n) == tree.root_node,
{
    tree.root_node.as_ref()
}

/// The subtree on the given side of a node.
pub fn avl_tree_node_child<T>(node: &AVLTreeNode<T>, side: AVLTreeNodeSide) -> (r: Option<
    &Box<AVLTreeNode<T>>,
>)
    ensures
        side == AVLTreeNodeSide::AvlTreeNodeLeft ==> (node.left is Some <==> r is Some) && (
        r matches Some(n) ==> Some(*n) == node.left),
        side == AVLTreeNodeSide::AvlTreeNodeRight ==> (node.right is Some <==> r is Some) && (
        r matches Some(n) ==> Some(*n) == node.right),
{
    match side {
        AVLTreeNodeSide::AvlTreeNodeLeft => node.left.as_ref(),
        AVLTreeNodeSide::AvlTreeNodeRight => node.right.as_ref(),
    }
}

/// A node's key.
pub fn avl_tree_node_key<T>(node: &AVLTreeNode<T>) -> (r: &T)
    ensures
        *r == node.key,
{
    &node.key
}

/// A node's value.
pub fn avl_tree_node_value<T>(node: &AVLTreeNode<T>) -> (r: &T)
    ensures
        *r == node.value,
{
    &node.value
}

/// The stored height of a subtree, zero when it is empty.
pub fn avl_tree_subtree_height<T>(node: &Option<Box<AVLTreeNode<T>>>) -> (r: i32)
    ensures
        avl_heights_ok(*node) ==> r == avl_height(*node),
        *node is None ==> r == 0,
{
    match node {
        Some(n) => n.height,
        None => 0,
    }
}

/// Recomputes a node's stored height from its subtrees'.
pub fn avl_tree_update_height<T>(node: &mut Box<AVLTreeNode<T>>)
    requires
        avl_heights_ok(old(node).left),
        avl_heights_ok(old(node).right),
        avl_height(old(node).left) < i32::MAX,
        avl_height(old(node).right) < i32::MAX,
    ensures
        final (node).left == old(node).left,
        final (node).right == old(node).right,
        final (node).key == old(node).key,
        final (node).value == old(node).value,
        avl_heights_ok(Some(*final (node))),
{
    let left_height = avl_tree_subtree_height(&node.left);
    let right_height = avl_tree_subtree_height(&node.right);
    if left_height > right_height {
        node.height = left_height + 1;
    } else {
        node.height = right_height + 1;
    }
}

/// Rotates the subtree in the given direction, keeping the in-order
/// sequence of pairs; a rotation with no child to lift returns the
/// subtree untouched.
pub fn avl_tree_rotate<T: ArrayListComparable + Copy>(
    node: Box<AVLTreeNode<T>>,
    direction: AVLTreeNodeSide,
) -> (r: Box<AVLTreeNode<T>>)
    requires
        avl_bst_ok(Some(node)),
        avl_heights_ok(Some(node)),
        avl_pairs(Some(node)).len() < i32::MAX,
    ensures
        avl_pairs(Some(r)) == avl_pairs(Some(node)),
        avl_bst_ok(Some(r)),
        avl_heights_ok(Some(r)),
{
    let ghost pre = avl_pairs(Some(node));
    proof {
        lemma_avl_height_le_len(Some(node));
        lemma_bst_sorted(Some(node));
    }
    match direction {
        AVLTreeNodeSide::AvlTreeNodeRight => {
            // Lift the left child: ((A, x, B), y, C) becomes (A, x, (B, y, C)).
            let mut n = node;
            let ghost orig = n;
            match n.left.take() {
                Some(mut l) => {
                    let ghost l0 = l;
                    proof {
                        assert(avl_heights_ok(Some(l)) && avl_heights_ok(n.right));
                        assert(avl_heights_ok(l.left) && avl_heights_ok(l.right));
                        assert(avl_bst_ok(Some(l0)) && avl_bst_ok(orig.right));
                        assert(avl_bst_ok(l0.left) && avl_bst_ok(l0.right));
                        assert(pre == avl_pairs(Some(l0)).add(
                            seq![(orig.key, orig.value)].add(avl_pairs(orig.right)),
                        ));
                        assert(avl_pairs(Some(l0)) == avl_pairs(l0.left).add(
                            seq![(l0.key, l0.value)].add(avl_pairs(l0.right)),
                        ));
                    }
                    n.left = l.right.take();
                    proof {
                        lemma_avl_height_le_len(n.left);
                        lemma_avl_height_le_len(n.right);
                    }
                    avl_tree_update_height(&mut n);
                    let ghost nsnap = n;
                    l.right = Some(n);
                    proof {
                        lemma_avl_height_le_len(l.left);
                        lemma_avl_height_le_len(Some(nsnap));
                    }
                    avl_tree_update_height(&mut l);
                    proof {
                        assert(avl_pairs(Some(nsnap)) == avl_pairs(nsnap.left).add(
                            seq![(nsnap.key, nsnap.value)].add(avl_pairs(nsnap.right)),
                        ));
                        assert(avl_pairs(Some(l)) == avl_pairs(l.left).add(
                            seq![(l.key, l.value)].add(avl_pairs(l.right)),
                        ));
                        assert(l.right == Some(nsnap));
                        assert(avl_pairs(Some(l)) =~= pre);
                        let off = avl_pairs(l0.left).len() + 1;
                        let np = avl_pairs(Some(nsnap));
                        assert(np =~= pre.subrange(off as int, pre.len() as int));
                        assert forall|i: int, j: int|
                            0 <= i < j < np.len() implies (#[trigger] np[i]).0.key() <= (
                        #[trigger] np[j]).0.key() by {
                            assert(np[i] == pre[off + i] && np[j] == pre[off + j]);
                        }
                        lemma_rotate_bst(np, nsnap);
                        lemma_rotate_bst(pre, l);
                    }
                    l
                },
                None => n,
            }
        },
        AVLTreeNodeSide::AvlTreeNodeLeft => {
            // Lift the right child: (A, x, (B, y, C)) becomes ((A, x, B), y, C).
            let mut n = node;
            let ghost orig = n;
            match n.right.take() {
                Some(mut rr) => {
                    let ghost r0 = rr;
                    proof {
                        assert(avl_heights_ok(Some(rr)) && avl_heights_ok(n.left));
                        assert(avl_heights_ok(rr.left) && avl_heights_ok(rr.right));
                        assert(avl_bst_ok(Some(r0)) && avl_bst_ok(orig.left));
                        assert(avl_bst_ok(r0.left) && avl_bst_ok(r0.right));
                        assert(pre == avl_pairs(orig.left).add(
                            seq![(orig.key, orig.value)].add(avl_pairs(Some(r0))),
                        ));
                        assert(avl_pairs(Some(r0)) == avl_pairs(r0.left).add(
                            seq![(r0.key, r0.value)].add(avl_pairs(r0.right)),
                        ));
                    }
                    n.right = rr.left.take();
                    proof {
                        lemma_avl_height_le_len(n.left);
                        lemma_avl_height_le_len(n.right);
                    }
                    avl_tree_update_height(&mut n);
                    let ghost nsnap = n;
                    rr.left = Some(n);
                    proof {
                        lemma_avl_height_le_len(Some(nsnap));
                        lemma_avl_height_le_len(rr.right);
                    }
                    avl_tree_update_height(&mut rr);
                    proof {
                        assert(avl_pairs(Some(nsnap)) == avl_pairs(nsnap.left).add(
                            seq![(nsnap.key, nsnap.value)].add(avl_pairs(nsnap.right)),
                        ));
                        assert(avl_pairs(Some(rr)) == avl_pairs(rr.left).add(
                            seq![(rr.key, rr.value)].add(avl_pairs(rr.right)),
                        ));
                        assert(rr.left == Some(nsnap));
                        assert(avl_pairs(Some(rr)) =~= pre);
                        let cut = avl_pairs(orig.left).len() + 1 + avl_pairs(r0.left).len();
                        let np = avl_pairs(Some(nsnap));
                        assert(np =~= pre.subrange(0, cut as int));
                        assert forall|i: int, j: int|
                            0 <= i < j < np.len() implies (#[trigger] np[i]).0.key() <= (
                        #[trigger] np[j]).0.key() by {
                            assert(np[i] == pre[i] && np[j] == pre[j]);
                        }
                        lemma_rotate_bst(np, nsnap);
                        lemma_rotate_bst(pre, rr);
                    }
                    rr
                },
                None => n,
            }
        },
    }
}

/// A node whose in-order pairs are a sorted-by-key sequence is in search
/// order, provided its subtrees are.
proof fn lemma_rotate_bst<T: ArrayListComparable>(pre: Seq<(T, T)>, n: Box<AVLTreeNode<T>>)
    requires
        avl_bst_ok(n.left),
        avl_bst_ok(n.right),
        avl_pairs(Some(n)) == pre,
        forall|i: int, j: int|
            0 <= i < j < pre.len() ==> (#[trigger] pre[i]).0.key() <= (#[trigger] pre[j]).0.key(),
    ensures
        avl_bst_ok(Some(n)),
{
    let l = avl_pairs(n.left);
    let r = avl_pairs(n.right);
    assert(pre == l.add(seq![(n.key, n.value)].add(r)));
    assert forall|i: int| 0 <= i < l.len() implies (#[trigger] l[i]).0.key() <= n.key.key() by {
        assert(pre[i] == l[i]);
        assert(pre[l.len() as int] == (n.key, n.value));
    }
    assert forall|i: int| 0 <= i < r.len() implies (#[trigger] r[i]).0.key() >= n.key.key() by {
        assert(pre[l.len() + 1 + i] == r[i]);
        assert(pre[l.len() as int] == (n.key, n.value));
    }
}

/// The in-order pairs of a subtree are sorted by key.
proof fn lemma_bst_sorted<T: ArrayListComparable>(node: Option<Box<AVLTreeNode<T>>>)
    requires
        avl_bst_ok(node),
    ensures
        forall|i: int, j: int|
            0 <= i < j < avl_pairs(node).len() ==> (#[trigger] avl_pairs(node)[i]).0.key() <= (
            #[trigger] avl_pairs(node)[j]).0.key(),
    decreases node,
{
    match node {
        None => {},
        Some(n) => {
            lemma_bst_sorted(n.left);
            lemma_bst_sorted(n.right);
            let l = avl_pairs(n.left);
            let r = avl_pairs(n.right);
            let whole = avl_pairs(node);
            assert forall|i: int, j: int|
                0 <= i < j < whole.len() implies (#[trigger] whole[i]).0.key() <= (
            #[trigger] whole[j]).0.key() by {
                if i < l.len() {
                    assert(whole[i] == l[i]);
                } else if i == l.len() {
                    assert(whole[i] == (n.key, n.value));
                } else {
                    assert(whole[i] == r[i - l.len() - 1]);
                }
                if j < l.len() {
                    assert(whole[j] == l[j]);
                } else if j == l.len() {
                    assert(whole[j] == (n.key, n.value));
                } else {
                    assert(whole[j] == r[j - l.len() - 1]);
                }
            }
        },
    }
}

/// Rebalances a node whose subtrees' heights differ by two or more, by one
/// or two rotations; the pairs and their order are kept.
pub fn avl_tree_node_balance<T: ArrayListComparable + Copy>(node: Box<AVLTreeNode<T>>) -> (r: Box<
    AVLTreeNode<T>,
>)
    requires
        avl_bst_ok(Some(node)),
        avl_heights_ok(Some(node)),
        avl_pairs(Some(node)).len() < i32::MAX,
    ensures
        avl_pairs(Some(r)) == avl_pairs(Some(node)),
        avl_bst_ok(Some(r)),
        avl_heights_ok(Some(r)),
{
    let ghost pre = avl_pairs(Some(node));
    let mut n = node;
    let left_height = avl_tree_subtree_height(&n.left);
    let right_height = avl_tree_subtree_height(&n.right);
    proof {
        lemma_avl_height_le_len(Some(n));
        lemma_avl_height_le_len(n.left);
        lemma_avl_height_le_len(n.right);
    }
    if right_height - left_height >= 2 {
        // Right-heavy: straighten a bent right child first, then lift it.
        match n.right.take() {
            Some(child) => {
                proof {
                    assert(avl_heights_ok(Some(child)) && avl_heights_ok(n.left));
                    lemma_avl_height_le_len(Some(child));
                }
                let cl = avl_tree_subtree_height(&child.left);
                let cr = avl_tree_subtree_height(&child.right);
                let child = if cr < cl {
                    avl_tree_rotate(child, AVLTreeNodeSide::AvlTreeNodeRight)
                } else {
                    child
                };
                n.right = Some(child);
                proof {
                    assert(avl_pairs(Some(n)) =~= pre);
                    lemma_bst_sorted(Some(n));
                    lemma_rotate_bst(avl_pairs(Some(n)), n);
                    lemma_avl_height_le_len(n.left);
                    lemma_avl_height_le_len(n.right);
                }
                avl_tree_update_height(&mut n);
                proof {
                    lemma_bst_sorted(Some(n));
                }
                avl_tree_rotate(n, AVLTreeNodeSide::AvlTreeNodeLeft)
            },
            None => n,
        }
    } else if left_height - right_height >= 2 {
        // Left-heavy, mirrored.
        match n.left.take() {
            Some(child) => {
                proof {
                    assert(avl_heights_ok(Some(child)) && avl_heights_ok(n.right));
                    lemma_avl_height_le_len(Some(child));
                }
                let cl = avl_tree_subtree_height(&child.left);
                let cr = avl_tree_subtree_height(&child.right);
                let child = if cl < cr {
                    avl_tree_rotate(child, AVLTreeNodeSide::AvlTreeNodeLeft)
                } else {
                    child
                };
                n.left = Some(child);
                proof {
                    assert(avl_pairs(Some(n)) =~= pre);
                    lemma_bst_sorted(Some(n));
                    lemma_rotate_bst(avl_pairs(Some(n)), n);
                    lemma_avl_height_le_len(n.left);
                    lemma_avl_height_le_len(n.right);
                }
                avl_tree_update_height(&mut n);
                proof {
                    lemma_bst_sorted(Some(n));
                }
                avl_tree_rotate(n, AVLTreeNodeSide::AvlTreeNodeRight)
            },
            None => n,
        }
    } else {
        n
    }
}

/// Stores one pair below `node`, keeping the search order, and rebalances
/// on the way back up.
fn avl_insert_node<T: ArrayListComparable + Copy, F: Fn(T, T) -> i32>(
    node: &mut Option<Box<AVLTreeNode<T>>>,
    key: T,
    value: T,
    compare_func: &F,
)
    requires
        avl_bst_ok(*old(node)),
        avl_heights_ok(*old(node)),
        avl_pairs(*old(node)).len() < i32::MAX - 1,
        cmp_agrees_val(*compare_func),
    ensures
        avl_bst_ok(*final (node)),
        avl_heights_ok(*final (node)),
        avl_pairs(*final (node)).len() == avl_pairs(*old(node)).len() + 1,
        avl_pairs(*final (node)).to_multiset() == avl_pairs(*old(node)).to_multiset().insert(
            (key, value),
        ),
    decreases avl_height(*old(node)), 1int,
{
    proof {
        lemma_avl_height_le_len(*old(node));
    }
    match node.take() {
        None => {
            *node = Some(
                Box::new(AVLTreeNode { left: None, right: None, key, value, height: 1 }),
            );
            proof {
                let p = avl_pairs(*node);
                assert(p =~= seq![(key, value)]);
                assert(p.to_multiset() =~= Seq::<(T, T)>::empty().to_multiset().insert(
                    (key, value),
                ));
            }
        },
        Some(mut n) => {
            let ghost pre_left = avl_pairs(n.left);
            let ghost pre_right = avl_pairs(n.right);
            let c = (compare_func)(key, n.key);
            proof {
                lemma_avl_height_le_len(n.left);
                lemma_avl_height_le_len(n.right);
                assert(avl_height(n.left) < avl_height(*old(node)));
                assert(avl_height(n.right) < avl_height(*old(node)));
            }
            if c < 0 {
                avl_insert_node(&mut n.left, key, value, compare_func);
            } else {
                avl_insert_node(&mut n.right, key, value, compare_func);
            }
            proof {
                lemma_avl_height_le_len(n.left);
                lemma_avl_height_le_len(n.right);
            }
            avl_tree_update_height(&mut n);
            proof {
                let l = avl_pairs(n.left);
                let r = avl_pairs(n.right);
                if c < 0 {
                    assert forall|i: int| 0 <= i < l.len() implies (#[trigger] l[i]).0.key()
                        <= n.key.key() by {
                        assert(l.contains(l[i]));
                        assert(l.to_multiset().count(l[i]) > 0);
                        if pre_left.to_multiset().count(l[i]) > 0 {
                            assert(pre_left.contains(l[i]));
                            let w = choose|w: int| 0 <= w < pre_left.len() && pre_left[w] == l[i];
                            assert(pre_left[w].0.key() <= n.key.key());
                        } else {
                            assert(l[i] == (key, value));
                        }
                    }
                } else {
                    assert forall|i: int| 0 <= i < r.len() implies (#[trigger] r[i]).0.key()
                        >= n.key.key() by {
                        assert(r.contains(r[i]));
                        assert(r.to_multiset().count(r[i]) > 0);
                        if pre_right.to_multiset().count(r[i]) > 0 {
                            assert(pre_right.contains(r[i]));
                            let w = choose|w: int|
                                0 <= w < pre_right.len() && pre_right[w] == r[i];
                            assert(pre_right[w].0.key() >= n.key.key());
                        } else {
                            assert(r[i] == (key, value));
                        }
                    }
                }
                assert(avl_bst_ok(Some(n)));
                lemma_avl_pairs_ms(n, pre_left, pre_right, key, value, c < 0);
            }
            let balanced = avl_tree_node_balance(n);
            *node = Some(balanced);
        },
    }
}

/// The pairs of a node whose one side took one extra pair are the old
/// pairs plus that pair.
proof fn lemma_avl_pairs_ms<T: ArrayListComparable>(
    n: Box<AVLTreeNode<T>>,
    pre_left: Seq<(T, T)>,
    pre_right: Seq<(T, T)>,
    key: T,
    value: T,
    went_left: bool,
)
    requires
        went_left ==> avl_pairs(n.left).to_multiset() == pre_left.to_multiset().insert(
            (key, value),
        ) && avl_pairs(n.right) == pre_right,
        !went_left ==> avl_pairs(n.right).to_multiset() == pre_right.to_multiset().insert(
            (key, value),
        ) && avl_pairs(n.left) == pre_left,
    ensures
        avl_pairs(Some(n)).to_multiset() == pre_left.add(
            seq![(n.key, n.value)].add(pre_right),
        ).to_multiset().insert((key, value)),
{
    let mid = seq![(n.key, n.value)];
    vstd::seq_lib::lemma_multiset_commutative(avl_pairs(n.left), mid.add(avl_pairs(n.right)));
    vstd::seq_lib::lemma_multiset_commutative(mid, avl_pairs(n.right));
    vstd::seq_lib::lemma_multiset_commutative(pre_left, mid.add(pre_right));
    vstd::seq_lib::lemma_multiset_commutative(mid, pre_right);
    assert(avl_pairs(Some(n)).to_multiset() =~= pre_left.add(
        mid.add(pre_right),
    ).to_multiset().insert((key, value)));
}

/// Stores one key/value pair; the pair is added even when the key is
/// already present.
pub fn avl_tree_insert<T: ArrayListComparable + Copy, F: Fn(T, T) -> i32>(
    tree: &mut AVLTree<T, F>,
    key: T,
    value: T,
) -> (r: Option<(T, T)>)
    requires
        old(tree).wf(),
        old(tree).num_nodes < i32::MAX - 1,
    ensures
        final (tree).wf(),
        final (tree).compare_func == old(tree).compare_func,
        final (tree).num_nodes == old(tree).num_nodes + 1,
        avl_pairs(final (tree).root_node).to_multiset() == avl_pairs(
            old(tree).root_node,
        ).to_multiset().insert((key, value)),
        r matches Some(p) && p == (key, value),
{
    let mut root = tree.root_node.take();
    avl_insert_node(&mut root, key, value, &tree.compare_func);
    tree.root_node = root;
    tree.num_nodes = tree.num_nodes + 1;
    Some((key, value))
}

/// The node holding a key that compares equal to `key`, while one exists.
pub fn avl_tree_lookup_node<'a, T: ArrayListComparable + Copy, F: Fn(T, T) -> i32>(
    tree: &'a AVLTree<T, F>,
    key: T,
) -> (r: Option<&'a AVLTreeNode<T>>)
    requires
        tree.wf(),
    ensures
        r matches Some(n) ==> n.key.key() == key.key() && avl_pairs(tree.root_node).contains(
            (n.key, n.value),
        ),
        r is None ==> forall|i: int|
            0 <= i < avl_pairs(tree.root_node).len() ==> (#[trigger] avl_pairs(
                tree.root_node,
            )[i]).0.key() != key.key(),
{
    let mut node: &Option<Box<AVLTreeNode<T>>> = &tree.root_node;
    let ghost whole = avl_pairs(tree.root_node);
    while node.is_some()
        invariant
            tree.wf(),
            avl_bst_ok(*node),
            whole == avl_pairs(tree.root_node),
            forall|i: int|
                0 <= i < avl_pairs(*node).len() ==> whole.contains(#[trigger] avl_pairs(*node)[i]),
            (forall|i: int|
                0 <= i < whole.len() && (#[trigger] whole[i]).0.key() == key.key()
                    ==> avl_pairs(*node).contains(whole[i])),
        decreases avl_height(*node),
    {
        let n = match node {
            Some(n) => n,
            None => {
                proof {
                    assert(false);
                }
                return None;
            },
        };
        let c = (tree.compare_func)(key, n.key);
        proof {
            lemma_avl_height_le_len(*node);
            let p = avl_pairs(*node);
            let l = avl_pairs(n.left);
            let r = avl_pairs(n.right);
            assert(p == l.add(seq![(n.key, n.value)].add(r)));
            assert forall|i: int| 0 <= i < l.len() implies p.contains(#[trigger] l[i]) by {
                assert(p[i] == l[i]);
            }
            assert forall|i: int| 0 <= i < r.len() implies p.contains(#[trigger] r[i]) by {
                assert(p[l.len() + 1 + i] == r[i]);
            }
        }
        if c == 0 {
            proof {
                let p = avl_pairs(*node);
                let l = avl_pairs(n.left);
                assert(p[l.len() as int] == (n.key, n.value));
                assert(p.contains((n.key, n.value)));
            }
            return Some(n);
        } else if c < 0 {
            proof {
                let p = avl_pairs(*node);
                let l = avl_pairs(n.left);
                let r = avl_pairs(n.right);
                assert forall|i: int|
                    0 <= i < whole.len() && (#[trigger] whole[i]).0.key() == key.key() implies
                    l.contains(whole[i]) by {
                    assert(p.contains(whole[i]));
                    let j = choose|j: int| 0 <= j < p.len() && p[j] == whole[i];
                    if j >= l.len() {
                        if j == l.len() {
                            assert(p[j] == (n.key, n.value));
                        } else {
                            assert(p[j] == r[j - l.len() - 1]);
                        }
                        assert(false);
                    }
                    assert(p[j] == l[j]);
                }
            }
            proof {
                lemma_avl_height_le_len(n.left);
                assert(avl_height(n.left) < avl_height(*node));
            }
            node = &n.left;
        } else {
            proof {
                let p = avl_pairs(*node);
                let l = avl_pairs(n.left);
                let r = avl_pairs(n.right);
                assert forall|i: int|
                    0 <= i < whole.len() && (#[trigger] whole[i]).0.key() == key.key() implies
                    r.contains(whole[i]) by {
                    assert(p.contains(whole[i]));
                    let j = choose|j: int| 0 <= j < p.len() && p[j] == whole[i];
                    if j < l.len() {
                        assert(p[j] == l[j]);
                        assert(false);
                    } else if j == l.len() {
                        assert(p[j] == (n.key, n.value));
                        assert(false);
                    }
                    assert(p[j] == r[j - l.len() - 1]);
                }
            }
            proof {
                lemma_avl_height_le_len(n.right);
                assert(avl_height(n.right) < avl_height(*node));
            }
            node = &n.right;
        }
    }
    proof {
        assert(avl_pairs(*node).len() == 0);
        assert forall|i: int|
            0 <= i < whole.len() implies (#[trigger] whole[i]).0.key() != key.key() by {
            if whole[i].0.key() == key.key() {
                assert(avl_pairs(*node).contains(whole[i]));
            }
        }
    }
    None
}

/// The value stored with a key comparing equal to `key`, while one exists.
pub fn avl_tree_lookup<'a, T: ArrayListComparable + Copy, F: Fn(T, T) -> i32>(
    tree: &'a AVLTree<T, F>,
    key: T,
) -> (r: Option<&'a T>)
    requires
        tree.wf(),
    ensures
        r matches Some(v) ==> exists|i: int|
            0 <= i < avl_pairs(tree.root_node).len() && (#[trigger] avl_pairs(
                tree.root_node,
            )[i]).0.key() == key.key() && avl_pairs(tree.root_node)[i].1 == *v,
        r is None ==> forall|i: int|
            0 <= i < avl_pairs(tree.root_node).len() ==> (#[trigger] avl_pairs(
                tree.root_node,
            )[i]).0.key() != key.key(),
{
    broadcast use vstd::seq_lib::group_to_multiset_ensures;

    match avl_tree_lookup_node(tree, key) {
        Some(n) => {
            proof {
                let p = avl_pairs(tree.root_node);
                let j = choose|j: int| 0 <= j < p.len() && p[j] == (n.key, n.value);
                assert(p[j].0.key() == key.key() && p[j].1 == n.value);
            }
            Some(&n.value)
        },
        None => None,
    }
}

/// The number of pairs held.
pub fn avl_tree_num_entries<T: ArrayListComparable + Copy, F: Fn(T, T) -> i32>(
    tree: &AVLTree<T, F>,
) -> (r: u32)
    ensures
        r == tree.num_nodes,
{
    tree.num_nodes
}

/// Releases a whole subtree.
pub fn avl_tree_free_subtree<T>(node: Option<Box<AVLTreeNode<T>>>) {
    let _ = node;
}

/// Releases every node of the tree.
pub fn avl_tree_free<T: ArrayListComparable + Copy, F: Fn(T, T) -> i32>(tree: &mut AVLTree<T, F>)
    ensures
        final (tree).root_node is None,
        final (tree).num_nodes == 0,
        final (tree).compare_func == old(tree).compare_func,
{
    avl_tree_free_subtree(tree.root_node.take());
    tree.num_nodes = 0;
}

/// Appends the keys of a subtree to `array` in in-order sequence.
pub fn avl_tree_to_array_add_subtree<T: ArrayListComparable + Copy>(
    subtree: &Option<Box<AVLTreeNode<T>>>,
    array: &mut Vec<T>,
)
    ensures
        final (array)@ == old(array)@.add(
            Seq::new(avl_pairs(*subtree).len(), |i: int| avl_pairs(*subtree)[i].0),
        ),
    decreases avl_pairs(*subtree).len(),
{
    match subtree {
        None => {
            proof {
                assert(array@ =~= old(array)@.add(
                    Seq::new(avl_pairs(*subtree).len(), |i: int| avl_pairs(*subtree)[i].0),
                ));
            }
        },
        Some(n) => {
            avl_tree_to_array_add_subtree(&n.left, array);
            array.push(n.key);
            avl_tree_to_array_add_subtree(&n.right, array);
            proof {
                let l = avl_pairs(n.left);
                let r = avl_pairs(n.right);
                let whole = avl_pairs(*subtree);
                assert(whole == l.add(seq![(n.key, n.value)].add(r)));
                assert(array@ =~= old(array)@.add(Seq::new(whole.len(), |i: int| whole[i].0)));
            }
        },
    }
}

/// All keys, in non-decreasing order.
pub fn avl_tree_to_array<T: ArrayListComparable + Copy, F: Fn(T, T) -> i32>(
    tree: &AVLTree<T, F>,
) -> (r: Vec<T>)
    requires
        tree.wf(),
    ensures
        r@.len() == tree.num_nodes,
        forall|i: int| 0 <= i < r@.len() ==> r@[i] == (#[trigger] avl_pairs(tree.root_node)[i]).0,
        forall|i: int, j: int| 0 <= i < j < r@.len() ==> r@[i].key() <= r@[j].key(),
{
    let mut array: Vec<T> = Vec::new();
    avl_tree_to_array_add_subtree(&tree.root_node, &mut array);
    proof {
        lemma_bst_sorted(tree.root_node);
    }
    array
}

} // verus!
