//! A red-black search tree of key/value pairs: inserts restructure
//! red-red violations on the way back up, removals promote the successor,
//! and the in-order walk lists the keys in non-decreasing order.

use crate::arraylist::ArrayListComparable;
use crate::sortedarray::cmp_agrees;
use vstd::multiset::Multiset;
use vstd::prelude::*;

verus! {

broadcast use vstd::seq_lib::group_to_multiset_ensures;

/// A node's colour.
#[derive(PartialEq, Eq, Structural, Clone, Copy, Debug)]
pub enum RBTreeNodeColor {
    Red,
    Black,
}

/// Which child of a node.
#[derive(PartialEq, Eq, Structural, Clone, Copy, Debug)]
pub enum RBTreeNodeSide {
    Left,
    Right,
}

/// One node: a colour, a key, its value and the two subtrees.
pub struct RBTreeNode<T> {
    pub color: RBTreeNodeColor,
    pub key: T,
    pub value: T,
    pub left: Option<Box<RBTreeNode<T>>>,
    pub right: Option<Box<RBTreeNode<T>>>,
}

/// A search tree ordered by the comparison callback, which must follow the
/// keys' own order.
pub struct RBTree<T, F: Fn(&T, &T) -> i32> {
    pub root_node: Option<Box<RBTreeNode<T>>>,
    pub compare_func: F,
    pub num_nodes: i32,
}

/// The key/value pairs of the subtree, in in-order sequence.
pub open spec fn rb_pairs<T>(node: Option<Box<RBTreeNode<T>>>) -> Seq<(T, T)>
    decreases node,
{
    match node {
        None => Seq::empty(),
        Some(n) => rb_pairs(n.left).add(seq![(n.key, n.value)].add(rb_pairs(n.right))),
    }
}

/// The search order: every key on the left comes no later than the node's,
/// every key on the right no earlier, recursively.
pub open spec fn rb_bst_ok<T: ArrayListComparable>(node: Option<Box<RBTreeNode<T>>>) -> bool
    decreases node,
{
    match node {
        None => true,
        Some(n) => {
            &&& forall|i: int|
                0 <= i < rb_pairs(n.left).len() ==> (#[trigger] rb_pairs(n.left)[i]).0.key()
                    <= n.key.key()
            &&& forall|i: int|
                0 <= i < rb_pairs(n.right).len() ==> (#[trigger] rb_pairs(n.right)[i]).0.key()
                    >= n.key.key()
            &&& rb_bst_ok(n.left)
            &&& rb_bst_ok(n.right)
        },
    }
}

impl<T: ArrayListComparable + Copy, F: Fn(&T, &T) -> i32> RBTree<T, F> {
    /// The order holds, the pair count is exact, and the callback follows
    /// the keys.
    pub open spec fn wf(self) -> bool {
        &&& rb_bst_ok(self.root_node)
        &&& self.num_nodes == rb_pairs(self.root_node).len()
        &&& cmp_agrees(self.compare_func)
    }
}

/// The in-order pairs of a subtree in search order are sorted by key.
proof fn lemma_rb_sorted<T: ArrayListComparable>(node: Option<Box<RBTreeNode<T>>>)
    requires
        rb_bst_ok(node),
    ensures
        forall|i: int, j: int|
            0 <= i < j < rb_pairs(node).len() ==> (#[trigger] rb_pairs(node)[i]).0.key() <= (
            #[trigger] rb_pairs(node)[j]).0.key(),
    decreases node,
{
    match node {
        None => {},
        Some(n) => {
            lemma_rb_sorted(n.left);
            lemma_rb_sorted(n.right);
            let l = rb_pairs(n.left);
            let r = rb_pairs(n.right);
            let whole = rb_pairs(node);
            assert forall|i: int, j: int|
                0 <= i < j < whole.len() implies (#[trigger] whole[i]).0.key() <= (
            #[trigger] whole[j]).0.key() by {
                if i < l.len() {
                    assert(whole[i] == l[i]);
                } else if i == l.len() {
                    assert(whole[i] == (n.key, n.value));
                } else {
                    assert(whole[i] == r[i - l.len() - 1]);
                }
                if j < l.len() {
                    assert(whole[j] == l[j]);
                } else if j == l.len() {
                    assert(whole[j] == (n.key, n.value));
                } else {
                    assert(whole[j] == r[j - l.len() - 1]);
                }
            }
        },
    }
}

/// A node whose in-order pairs are a contiguous piece of one sorted
/// sequence is in search order, provided its subtrees are.
proof fn lemma_rb_node_bst<T: ArrayListComparable>(n: Box<RBTreeNode<T>>, whole: Seq<(T, T)>, off: int)
    requires
        rb_bst_ok(n.left),
        rb_bst_ok(n.right),
        0 <= off,
        off + rb_pairs(Some(n)).len() <= whole.len(),
        rb_pairs(Some(n)) == whole.subrange(off, off + rb_pairs(Some(n)).len()),
        forall|i: int, j: int|
            0 <= i < j < whole.len() ==> (#[trigger] whole[i]).0.key() <= (
            #[trigger] whole[j]).0.key(),
    ensures
        rb_bst_ok(Some(n)),
{
    let l = rb_pairs(n.left);
    let r = rb_pairs(n.right);
    let p = rb_pairs(Some(n));
    assert(p == l.add(seq![(n.key, n.value)].add(r)));
    assert forall|i: int| 0 <= i < l.len() implies (#[trigger] l[i]).0.key() <= n.key.key() by {
        assert(p[i] == l[i]);
        assert(p[l.len() as int] == (n.key, n.value));
        assert(p[i] == whole[off + i] && p[l.len() as int] == whole[off + l.len()]);
    }
    assert forall|i: int| 0 <= i < r.len() implies (#[trigger] r[i]).0.key() >= n.key.key() by {
        assert(p[l.len() + 1 + i] == r[i]);
        assert(p[l.len() as int] == (n.key, n.value));
        assert(p[l.len() + 1 + i] == whole[off + l.len() + 1 + i] && p[l.len() as int] == whole[off
            + l.len()]);
    }
}

/// Creates an empty tree ordered by the given comparison callback.
pub fn rb_tree_new<T: ArrayListComparable + Copy, F: Fn(&T, &T) -> i32>(compare_func: F) -> (r:
    Option<RBTree<T, F>>)
    ensures
        r matches Some(t) && t.root_node is None && t.num_nodes == 0 && t.compare_func
            == compare_func && (cmp_agrees(compare_func) ==> t.wf()),
{
    Some(RBTree { root_node: None, compare_func, num_nodes: 0 })
}

/// The root of the tree, while it has one.
pub fn rb_tree_root_node<T: ArrayListComparable + Copy, F: Fn(&T, &T) -> i32>(
    tree: &RBTree<T, F>,
) -> (r: Option<&Box<RBTreeNode<T>>>)
    ensures
        tree.root_node is Some <==> r is Some,
        r matches Some(n) ==> Some(*n) == tree.root_node,
{
    tree.root_node.as_ref()
}

/// The subtree on the given side of a node.
pub fn rb_tree_node_child<T>(node: &RBTreeNode<T>, side: RBTreeNodeSide) -> (r: Option<
    &Box<RBTreeNode<T>>,
>)
    ensures
        side == RBTreeNodeSide::Left ==> (node.left is Some <==> r is Some) && (r matches Some(n)
            ==> Some(*n) == node.left),
        side == RBTreeNodeSide::Right ==> (node.right is Some <==> r is Some) && (r matches Some(n)
            ==> Some(*n) == node.right),
{
    match side {
        RBTreeNodeSide::Left => node.left.as_ref(),
        RBTreeNodeSide::Right => node.right.as_ref(),
    }
}

/// A node's key.
pub fn rb_tree_node_key<T: Copy>(node: &RBTreeNode<T>) -> (r: T)
    ensures
        r == node.key,
{
    node.key
}

/// A node's value.
pub fn rb_tree_node_value<T: Copy>(node: &RBTreeNode<T>) -> (r: T)
    ensures
        r == node.value,
{
    node.value
}

/// The number of pairs held.
pub fn rb_tree_num_entries<T: ArrayListComparable + Copy, F: Fn(&T, &T) -> i32>(
    tree: &RBTree<T, F>,
) -> (r: i32)
    ensures
        r == tree.num_nodes,
{
    tree.num_nodes
}

/// Releases a whole subtree.
pub fn rb_tree_free_subtree<T>(node: Option<Box<RBTreeNode<T>>>) {
    let _ = node;
}

/// Releases every node of the tree.
pub fn rb_tree_free<T: ArrayListComparable + Copy, F: Fn(&T, &T) -> i32>(tree: &mut RBTree<T, F>)
    ensures
        final (tree).root_node is None,
        final (tree).num_nodes == 0,
        final (tree).compare_func == old(tree).compare_func,
{
    rb_tree_free_subtree(tree.root_node.take());
    tree.num_nodes = 0;
}

/// Restructures one red child with a red grandchild under a black node
/// into a red node with two black children; the pairs and their order are
/// kept.  A node with no such violation is returned untouched.
/// Restructures one red child with a red grandchild under a black node
/// into a red node with two black children; the pairs and their order are
/// kept.  A node with no such violation is returned untouched.
fn rb_balance<T: ArrayListComparable + Copy>(node: Box<RBTreeNode<T>>) -> (r: Box<RBTreeNode<T>>)
    requires
        rb_bst_ok(Some(node)),
    ensures
        rb_pairs(Some(r)) == rb_pairs(Some(node)),
        rb_bst_ok(Some(r)),
{
    if node.color != RBTreeNodeColor::Black {
        return node;
    }
    let left_red = match &node.left {
        Some(l) => l.color == RBTreeNodeColor::Red,
        None => false,
    };
    if left_red {
        return rb_balance_left(node);
    }
    let right_red = match &node.right {
        Some(rr) => rr.color == RBTreeNodeColor::Red,
        None => false,
    };
    if right_red {
        return rb_balance_right(node);
    }
    node
}

/// Restructures a red left child with a red grandchild.
#[verifier::rlimit(100)]
fn rb_balance_left<T: ArrayListComparable + Copy>(node: Box<RBTreeNode<T>>) -> (r: Box<
    RBTreeNode<T>,
>)
    requires
        rb_bst_ok(Some(node)),
        node.left is Some,
    ensures
        rb_pairs(Some(r)) == rb_pairs(Some(node)),
        rb_bst_ok(Some(r)),
{
    let ghost pre = rb_pairs(Some(node));
    proof {
        lemma_rb_sorted(Some(node));
    }
    let mut n = node;
    {
        let ghost orig = n;
        let mut l = match n.left.take() {
            Some(l) => l,
            None => {
                proof {
                    assert(false);
                }
                return n;
            },
        };
        let ghost l0 = l;
        proof {
            assert(rb_bst_ok(Some(l0)) && rb_bst_ok(orig.right));
            assert(rb_bst_ok(l0.left) && rb_bst_ok(l0.right));
            assert(orig.left == Some(l0));
            assert(pre == rb_pairs(Some(l0)).add(
                seq![(orig.key, orig.value)].add(rb_pairs(orig.right)),
            ));
            assert(rb_pairs(Some(l0)) == rb_pairs(l0.left).add(
                seq![(l0.key, l0.value)].add(rb_pairs(l0.right)),
            ));
        }
        let ll_red = match &l.left {
            Some(x) => x.color == RBTreeNodeColor::Red,
            None => false,
        };
        let lr_red = match &l.right {
            Some(x) => x.color == RBTreeNodeColor::Red,
            None => false,
        };
        if ll_red {
            // (R (R a x b) y c) under black z with d: lift y.
            let a = match l.left.take() {
                Some(a) => a,
                None => {
                    proof {
                        assert(false);
                    }
                    return n;
                },
            };
            proof {
                assert(rb_bst_ok(Some(a)));
            }
            n.left = l.right.take();
            n.color = RBTreeNodeColor::Black;
            let ghost nsnap = n;
            l.left = Some(a);
            l.right = Some(n);
            l.color = RBTreeNodeColor::Red;
            proof {
                assert(rb_pairs(Some(nsnap)) == rb_pairs(nsnap.left).add(
                    seq![(nsnap.key, nsnap.value)].add(rb_pairs(nsnap.right)),
                ));
                assert(rb_pairs(Some(l)) == rb_pairs(l.left).add(
                    seq![(l.key, l.value)].add(rb_pairs(l.right)),
                ));
                assert(rb_pairs(Some(l)) =~= pre);
                let off: int = rb_pairs(l0.left).len() as int + 1;
                assert(rb_pairs(Some(nsnap)) =~= pre.subrange(
                    off,
                    off + rb_pairs(Some(nsnap)).len() as int,
                ));
                lemma_rb_node_bst(nsnap, pre, off);
                assert(rb_pairs(Some(l)) =~= pre.subrange(0, pre.len() as int));
                lemma_rb_node_bst(l, pre, 0);
            }
            return l;
        }
        if lr_red {
            // (R a x (R b y c)) under black z with d: lift y.
            let mut m = match l.right.take() {
                Some(m) => m,
                None => {
                    proof {
                        assert(false);
                    }
                    return n;
                },
            };
            let ghost m0 = m;
            proof {
                assert(rb_bst_ok(Some(m0)));
                assert(rb_bst_ok(m0.left) && rb_bst_ok(m0.right));
                assert(l0.right == Some(m0));
                assert(rb_pairs(Some(m0)) == rb_pairs(m0.left).add(
                    seq![(m0.key, m0.value)].add(rb_pairs(m0.right)),
                ));
            }
            l.right = m.left.take();
            l.color = RBTreeNodeColor::Black;
            let ghost lsnap = l;
            proof {
                assert(rb_pairs(Some(lsnap)) == rb_pairs(lsnap.left).add(
                    seq![(lsnap.key, lsnap.value)].add(rb_pairs(lsnap.right)),
                ));
            }
            n.left = m.right.take();
            n.color = RBTreeNodeColor::Black;
            let ghost nsnap = n;
            m.left = Some(l);
            m.right = Some(n);
            m.color = RBTreeNodeColor::Red;
            proof {
                assert(rb_pairs(Some(lsnap)) == rb_pairs(lsnap.left).add(
                    seq![(lsnap.key, lsnap.value)].add(rb_pairs(lsnap.right)),
                ));
                assert(rb_pairs(Some(nsnap)) == rb_pairs(nsnap.left).add(
                    seq![(nsnap.key, nsnap.value)].add(rb_pairs(nsnap.right)),
                ));
                assert(rb_pairs(Some(m)) == rb_pairs(m.left).add(
                    seq![(m.key, m.value)].add(rb_pairs(m.right)),
                ));
                assert(rb_pairs(Some(m)) =~= pre);
                assert(rb_pairs(Some(lsnap)) =~= pre.subrange(
                    0,
                    rb_pairs(Some(lsnap)).len() as int,
                ));
                lemma_rb_node_bst(lsnap, pre, 0);
                let off: int = rb_pairs(Some(lsnap)).len() as int + 1;
                assert(rb_pairs(Some(nsnap)) =~= pre.subrange(
                    off,
                    off + rb_pairs(Some(nsnap)).len() as int,
                ));
                lemma_rb_node_bst(nsnap, pre, off);
                assert(rb_pairs(Some(m)) =~= pre.subrange(0, pre.len() as int));
                lemma_rb_node_bst(m, pre, 0);
            }
            return m;
        }
        n.left = Some(l);
        proof {
            assert(rb_pairs(Some(n)) =~= pre);
            assert(rb_pairs(Some(n)) =~= pre.subrange(0, pre.len() as int));
            lemma_rb_node_bst(n, pre, 0);
        }
        return n;
    }
}

/// Restructures a red right child with a red grandchild.
#[verifier::rlimit(100)]
fn rb_balance_right<T: ArrayListComparable + Copy>(node: Box<RBTreeNode<T>>) -> (r: Box<
    RBTreeNode<T>,
>)
    requires
        rb_bst_ok(Some(node)),
        node.right is Some,
    ensures
        rb_pairs(Some(r)) == rb_pairs(Some(node)),
        rb_bst_ok(Some(r)),
{
    let ghost pre = rb_pairs(Some(node));
    proof {
        lemma_rb_sorted(Some(node));
    }
    let mut n = node;
    {
        let ghost orig = n;
        let mut rr = match n.right.take() {
            Some(rr) => rr,
            None => {
                proof {
                    assert(false);
                }
                return n;
            },
        };
        let ghost r0 = rr;
        proof {
            assert(rb_bst_ok(Some(r0)) && rb_bst_ok(orig.left));
            assert(rb_bst_ok(r0.left) && rb_bst_ok(r0.right));
            assert(orig.right == Some(r0));
            assert(pre == rb_pairs(orig.left).add(
                seq![(orig.key, orig.value)].add(rb_pairs(Some(r0))),
            ));
            assert(rb_pairs(Some(r0)) == rb_pairs(r0.left).add(
                seq![(r0.key, r0.value)].add(rb_pairs(r0.right)),
            ));
        }
        let rl_red = match &rr.left {
            Some(x) => x.color == RBTreeNodeColor::Red,
            None => false,
        };
        let rr_red = match &rr.right {
            Some(x) => x.color == RBTreeNodeColor::Red,
            None => false,
        };
        if rr_red {
            // (a x (R b y (R c z d))): lift y.
            let d = match rr.right.take() {
                Some(d) => d,
                None => {
                    proof {
                        assert(false);
                    }
                    return n;
                },
            };
            proof {
                assert(rb_bst_ok(Some(d)));
            }
            n.right = rr.left.take();
            n.color = RBTreeNodeColor::Black;
            let ghost nsnap = n;
            rr.left = Some(n);
            rr.right = Some(d);
            rr.color = RBTreeNodeColor::Red;
            proof {
                assert(rb_pairs(Some(nsnap)) == rb_pairs(nsnap.left).add(
                    seq![(nsnap.key, nsnap.value)].add(rb_pairs(nsnap.right)),
                ));
                assert(rb_pairs(Some(rr)) == rb_pairs(rr.left).add(
                    seq![(rr.key, rr.value)].add(rb_pairs(rr.right)),
                ));
                assert(rb_pairs(Some(rr)) =~= pre);
                assert(rb_pairs(Some(nsnap)) =~= pre.subrange(
                    0,
                    rb_pairs(Some(nsnap)).len() as int,
                ));
                lemma_rb_node_bst(nsnap, pre, 0);
                assert(rb_pairs(Some(rr)) =~= pre.subrange(0, pre.len() as int));
                lemma_rb_node_bst(rr, pre, 0);
            }
            return rr;
        }
        if rl_red {
            // (a x (R (R b y c) z d)): lift y.
            let mut m = match rr.left.take() {
                Some(m) => m,
                None => {
                    proof {
                        assert(false);
                    }
                    return n;
                },
            };
            let ghost m0 = m;
            proof {
                assert(rb_bst_ok(Some(m0)));
                assert(rb_bst_ok(m0.left) && rb_bst_ok(m0.right));
                assert(r0.left == Some(m0));
                assert(rb_pairs(Some(m0)) == rb_pairs(m0.left).add(
                    seq![(m0.key, m0.value)].add(rb_pairs(m0.right)),
                ));
            }
            n.right = m.left.take();
            n.color = RBTreeNodeColor::Black;
            let ghost nsnap = n;
            rr.left = m.right.take();
            rr.color = RBTreeNodeColor::Black;
            let ghost rsnap = rr;
            m.left = Some(n);
            m.right = Some(rr);
            m.color = RBTreeNodeColor::Red;
            proof {
                assert(rb_pairs(Some(nsnap)) == rb_pairs(nsnap.left).add(
                    seq![(nsnap.key, nsnap.value)].add(rb_pairs(nsnap.right)),
                ));
                assert(rb_pairs(Some(rsnap)) == rb_pairs(rsnap.left).add(
                    seq![(rsnap.key, rsnap.value)].add(rb_pairs(rsnap.right)),
                ));
                assert(rb_pairs(Some(m)) == rb_pairs(m.left).add(
                    seq![(m.key, m.value)].add(rb_pairs(m.right)),
                ));
                assert(rb_pairs(Some(m)) =~= pre);
                assert(rb_pairs(Some(nsnap)) =~= pre.subrange(
                    0,
                    rb_pairs(Some(nsnap)).len() as int,
                ));
                lemma_rb_node_bst(nsnap, pre, 0);
                let off: int = rb_pairs(Some(nsnap)).len() as int + 1;
                assert(rb_pairs(Some(rsnap)) =~= pre.subrange(
                    off,
                    off + rb_pairs(Some(rsnap)).len() as int,
                ));
                lemma_rb_node_bst(rsnap, pre, off);
                assert(rb_pairs(Some(m)) =~= pre.subrange(0, pre.len() as int));
                lemma_rb_node_bst(m, pre, 0);
            }
            return m;
        }
        n.right = Some(rr);
        proof {
            assert(rb_pairs(Some(n)) =~= pre);
            assert(rb_pairs(Some(n)) =~= pre.subrange(0, pre.len() as int));
            lemma_rb_node_bst(n, pre, 0);
        }
        return n;
    }
}

/// Stores one pair below `node`, keeping the search order, and
/// restructures red-red violations on the way back up.
fn rb_insert_node<T: ArrayListComparable + Copy, F: Fn(&T, &T) -> i32>(
    node: &mut Option<Box<RBTreeNode<T>>>,
    key: T,
    value: T,
    compare_func: &F,
)
    requires
        rb_bst_ok(*old(node)),
        cmp_agrees(*compare_func),
    ensures
        rb_bst_ok(*final (node)),
        rb_pairs(*final (node)).len() == rb_pairs(*old(node)).len() + 1,
        rb_pairs(*final (node)).to_multiset() == rb_pairs(*old(node)).to_multiset().insert(
            (key, value),
        ),
    decreases rb_pairs(*old(node)).len(),
{
    match node.take() {
        None => {
            *node = Some(
                Box::new(
                    RBTreeNode {
                        color: RBTreeNodeColor::Red,
                        key,
                        value,
                        left: None,
                        right: None,
                    },
                ),
            );
            proof {
                let p = rb_pairs(*node);
                assert(p =~= seq![(key, value)]);
                assert(p.to_multiset() =~= Seq::<(T, T)>::empty().to_multiset().insert(
                    (key, value),
                ));
            }
        },
        Some(mut n) => {
            let ghost pre_left = rb_pairs(n.left);
            let ghost pre_right = rb_pairs(n.right);
            proof {
                assert(rb_pairs(Some(n)) == pre_left.add(
                    seq![(n.key, n.value)].add(pre_right),
                ));
            }
            let c = (compare_func)(&key, &n.key);
            if c < 0 {
                rb_insert_node(&mut n.left, key, value, compare_func);
            } else {
                rb_insert_node(&mut n.right, key, value, compare_func);
            }
            proof {
                let l = rb_pairs(n.left);
                let r = rb_pairs(n.right);
                if c < 0 {
                    assert forall|i: int| 0 <= i < l.len() implies (#[trigger] l[i]).0.key()
                        <= n.key.key() by {
                        assert(l.contains(l[i]));
                        assert(l.to_multiset().count(l[i]) > 0);
                        if pre_left.to_multiset().count(l[i]) > 0 {
                            assert(pre_left.contains(l[i]));
                            let w = choose|w: int| 0 <= w < pre_left.len() && pre_left[w] == l[i];
                            assert(pre_left[w].0.key() <= n.key.key());
                        } else {
                            assert(l[i] == (key, value));
                        }
                    }
                } else {
                    assert forall|i: int| 0 <= i < r.len() implies (#[trigger] r[i]).0.key()
                        >= n.key.key() by {
                        assert(r.contains(r[i]));
                        assert(r.to_multiset().count(r[i]) > 0);
                        if pre_right.to_multiset().count(r[i]) > 0 {
                            assert(pre_right.contains(r[i]));
                            let w = choose|w: int|
                                0 <= w < pre_right.len() && pre_right[w] == r[i];
                            assert(pre_right[w].0.key() >= n.key.key());
                        } else {
                            assert(r[i] == (key, value));
                        }
                    }
                }
                assert(rb_bst_ok(Some(n)));
                lemma_rb_pairs_ms(n, pre_left, pre_right, key, value, c < 0);
            }
            let balanced = rb_balance(n);
            *node = Some(balanced);
        },
    }
}

/// The pairs of a node whose one side took one extra pair are the old
/// pairs plus that pair.
proof fn lemma_rb_pairs_ms<T: ArrayListComparable>(
    n: Box<RBTreeNode<T>>,
    pre_left: Seq<(T, T)>,
    pre_right: Seq<(T, T)>,
    key: T,
    value: T,
    went_left: bool,
)
    requires
        went_left ==> rb_pairs(n.left).to_multiset() == pre_left.to_multiset().insert(
            (key, value),
        ) && rb_pairs(n.right) == pre_right,
        !went_left ==> rb_pairs(n.right).to_multiset() == pre_right.to_multiset().insert(
            (key, value),
        ) && rb_pairs(n.left) == pre_left,
    ensures
        rb_pairs(Some(n)).to_multiset() == pre_left.add(
            seq![(n.key, n.value)].add(pre_right),
        ).to_multiset().insert((key, value)),
{
    let mid = seq![(n.key, n.value)];
    vstd::seq_lib::lemma_multiset_commutative(rb_pairs(n.left), mid.add(rb_pairs(n.right)));
    vstd::seq_lib::lemma_multiset_commutative(mid, rb_pairs(n.right));
    vstd::seq_lib::lemma_multiset_commutative(pre_left, mid.add(pre_right));
    vstd::seq_lib::lemma_multiset_commutative(mid, pre_right);
    assert(rb_pairs(Some(n)).to_multiset() =~= pre_left.add(
        mid.add(pre_right),
    ).to_multiset().insert((key, value)));
}

/// Stores one key/value pair; the pair is added even when the key is
/// already present, and the root is painted black.
pub fn rb_tree_insert<T: ArrayListComparable + Copy, F: Fn(&T, &T) -> i32>(
    tree: &mut RBTree<T, F>,
    key: T,
    value: T,
) -> (r: Option<(T, T)>)
    requires
        old(tree).wf(),
        old(tree).num_nodes < i32::MAX,
    ensures
        final (tree).wf(),
        final (tree).compare_func == old(tree).compare_func,
        final (tree).num_nodes == old(tree).num_nodes + 1,
        rb_pairs(final (tree).root_node).to_multiset() == rb_pairs(
            old(tree).root_node,
        ).to_multiset().insert((key, value)),
        r matches Some(p) && p == (key, value),
{
    let mut root = tree.root_node.take();
    rb_insert_node(&mut root, key, value, &tree.compare_func);
    let ghost root0 = root;
    match root.as_mut() {
        Some(n) => {
            n.color = RBTreeNodeColor::Black;
        },
        None => {},
    }
    proof {
        // Recolouring the root moves no pair and keeps the order.
        if root is Some {
            let a = root->0;
            let b = root0->0;
            assert(a.left == b.left && a.right == b.right && a.key == b.key && a.value == b.value);
            assert(rb_pairs(root) == rb_pairs(a.left).add(
                seq![(a.key, a.value)].add(rb_pairs(a.right)),
            ));
            assert(rb_pairs(root0) == rb_pairs(b.left).add(
                seq![(b.key, b.value)].add(rb_pairs(b.right)),
            ));
            assert(rb_pairs(root) == rb_pairs(root0));
            assert(rb_bst_ok(root));
        }
    }
    tree.root_node = root;
    tree.num_nodes = tree.num_nodes + 1;
    Some((key, value))
}

/// The node holding a key that compares equal to `key`, while one exists.
pub fn rb_tree_lookup_node<'a, T: ArrayListComparable + Copy, F: Fn(&T, &T) -> i32>(
    tree: &'a RBTree<T, F>,
    key: T,
) -> (r: Option<&'a RBTreeNode<T>>)
    requires
        tree.wf(),
    ensures
        r matches Some(n) ==> n.key.key() == key.key() && rb_pairs(tree.root_node).contains(
            (n.key, n.value),
        ),
        r is None ==> forall|i: int|
            0 <= i < rb_pairs(tree.root_node).len() ==> (#[trigger] rb_pairs(
                tree.root_node,
            )[i]).0.key() != key.key(),
{
    let mut node: &Option<Box<RBTreeNode<T>>> = &tree.root_node;
    let ghost whole = rb_pairs(tree.root_node);
    while node.is_some()
        invariant
            tree.wf(),
            rb_bst_ok(*node),
            whole == rb_pairs(tree.root_node),
            forall|i: int|
                0 <= i < rb_pairs(*node).len() ==> whole.contains(#[trigger] rb_pairs(*node)[i]),
            (forall|i: int|
                0 <= i < whole.len() && (#[trigger] whole[i]).0.key() == key.key() ==> rb_pairs(
                    *node,
                ).contains(whole[i])),
        decreases rb_pairs(*node).len(),
    {
        let n = match node {
            Some(n) => n,
            None => {
                proof {
                    assert(false);
                }
                return None;
            },
        };
        let c = (tree.compare_func)(&key, &n.key);
        proof {
            let p = rb_pairs(*node);
            let l = rb_pairs(n.left);
            let r = rb_pairs(n.right);
            assert(p == l.add(seq![(n.key, n.value)].add(r)));
            assert forall|i: int| 0 <= i < l.len() implies p.contains(#[trigger] l[i]) by {
                assert(p[i] == l[i]);
            }
            assert forall|i: int| 0 <= i < r.len() implies p.contains(#[trigger] r[i]) by {
                assert(p[l.len() + 1 + i] == r[i]);
            }
        }
        if c == 0 {
            proof {
                let p = rb_pairs(*node);
                let l = rb_pairs(n.left);
                assert(p[l.len() as int] == (n.key, n.value));
                assert(p.contains((n.key, n.value)));
            }
            return Some(n);
        } else if c < 0 {
            proof {
                let p = rb_pairs(*node);
                let l = rb_pairs(n.left);
                let r = rb_pairs(n.right);
                assert forall|i: int|
                    0 <= i < whole.len() && (#[trigger] whole[i]).0.key() == key.key() implies
                    l.contains(whole[i]) by {
                    assert(p.contains(whole[i]));
                    let j = choose|j: int| 0 <= j < p.len() && p[j] == whole[i];
                    if j >= l.len() {
                        if j == l.len() {
                            assert(p[j] == (n.key, n.value));
                        } else {
                            assert(p[j] == r[j - l.len() - 1]);
                        }
                        assert(false);
                    }
                    assert(p[j] == l[j]);
                }
            }
            node = &n.left;
        } else {
            proof {
                let p = rb_pairs(*node);
                let l = rb_pairs(n.left);
                let r = rb_pairs(n.right);
                assert forall|i: int|
                    0 <= i < whole.len() && (#[trigger] whole[i]).0.key() == key.key() implies
                    r.contains(whole[i]) by {
                    assert(p.contains(whole[i]));
                    let j = choose|j: int| 0 <= j < p.len() && p[j] == whole[i];
                    if j < l.len() {
                        assert(p[j] == l[j]);
                        assert(false);
                    } else if j == l.len() {
                        assert(p[j] == (n.key, n.value));
                        assert(false);
                    }
                    assert(p[j] == r[j - l.len() - 1]);
                }
            }
            node = &n.right;
        }
    }
    proof {
        assert(rb_pairs(*node).len() == 0);
        assert forall|i: int|
            0 <= i < whole.len() implies (#[trigger] whole[i]).0.key() != key.key() by {
            if whole[i].0.key() == key.key() {
                assert(rb_pairs(*node).contains(whole[i]));
            }
        }
    }
    None
}

/// The value stored with a key comparing equal to `key`, while one exists.
pub fn rb_tree_lookup<T: ArrayListComparable + Copy, F: Fn(&T, &T) -> i32>(
    tree: &RBTree<T, F>,
    key: T,
) -> (r: Option<T>)
    requires
        tree.wf(),
    ensures
        r matches Some(v) ==> exists|i: int|
            0 <= i < rb_pairs(tree.root_node).len() && (#[trigger] rb_pairs(
                tree.root_node,
            )[i]).0.key() == key.key() && rb_pairs(tree.root_node)[i].1 == v,
        r is None ==> forall|i: int|
            0 <= i < rb_pairs(tree.root_node).len() ==> (#[trigger] rb_pairs(
                tree.root_node,
            )[i]).0.key() != key.key(),
{
    broadcast use vstd::seq_lib::group_to_multiset_ensures;

    match rb_tree_lookup_node(tree, key) {
        Some(n) => {
            proof {
                let p = rb_pairs(tree.root_node);
                let j = choose|j: int| 0 <= j < p.len() && p[j] == (n.key, n.value);
                assert(p[j].0.key() == key.key() && p[j].1 == n.value);
            }
            Some(n.value)
        },
        None => None,
    }
}

/// Takes the pair with the least position out of a non-empty subtree.
fn rb_pop_min<T: ArrayListComparable + Copy>(node: &mut Option<Box<RBTreeNode<T>>>) -> (r: (T, T))
    requires
        *old(node) is Some,
        rb_bst_ok(*old(node)),
    ensures
        rb_bst_ok(*final (node)),
        r == rb_pairs(*old(node))[0],
        rb_pairs(*final (node)) == rb_pairs(*old(node)).drop_first(),
    decreases rb_pairs(*old(node)).len(),
{
    let mut n = match node.take() {
        Some(n) => n,
        None => {
            proof {
                assert(false);
            }
            return rb_pop_min(node);
        },
    };
    proof {
        assert(rb_pairs(Some(n)) == rb_pairs(n.left).add(
            seq![(n.key, n.value)].add(rb_pairs(n.right)),
        ));
    }
    if n.left.is_none() {
        let r = (n.key, n.value);
        let right = n.right.take();
        *node = right;
        proof {
            assert(rb_pairs(*old(node)).drop_first() =~= rb_pairs(*node));
        }
        r
    } else {
        proof {
            assert(rb_pairs(n.left).len() < rb_pairs(*old(node)).len());
        }
        let ghost pre_left = rb_pairs(n.left);
        let r = rb_pop_min(&mut n.left);
        proof {
            assert(pre_left.len() > 0) by {
                if pre_left.len() == 0 {
                    assert(pre_left =~= Seq::<(T, T)>::empty());
                }
            }
        }
        *node = Some(n);
        proof {
            let nn = node->0;
            let l = rb_pairs(nn.left);
            assert(l == pre_left.drop_first());
            assert(rb_pairs(*node) == l.add(seq![(nn.key, nn.value)].add(rb_pairs(nn.right))));
            assert(rb_pairs(*node) =~= rb_pairs(*old(node)).drop_first());
            assert(r == pre_left[0]);
            assert(rb_pairs(*old(node))[0] == pre_left[0]);
            assert forall|i: int| 0 <= i < l.len() implies (#[trigger] l[i]).0.key()
                <= nn.key.key() by {
                assert(l[i] == pre_left[i + 1]);
            }
            assert(rb_bst_ok(*node));
        }
        r
    }
}

/// Removes one pair whose key compares equal to `key`, while one exists,
/// promoting the successor when both subtrees are present.
fn rb_delete_node<T: ArrayListComparable + Copy, F: Fn(&T, &T) -> i32>(
    node: &mut Option<Box<RBTreeNode<T>>>,
    key: T,
    compare_func: &F,
) -> (removed: bool)
    requires
        rb_bst_ok(*old(node)),
        cmp_agrees(*compare_func),
    ensures
        rb_bst_ok(*final (node)),
        removed <==> exists|i: int|
            0 <= i < rb_pairs(*old(node)).len() && (#[trigger] rb_pairs(*old(node))[i]).0.key()
                == key.key(),
        removed ==> rb_pairs(*final (node)).len() == rb_pairs(*old(node)).len() - 1 && exists|
            i: int,
        |
            0 <= i < rb_pairs(*old(node)).len() && (#[trigger] rb_pairs(*old(node))[i]).0.key()
                == key.key() && rb_pairs(*final (node)).to_multiset() == rb_pairs(
                *old(node),
            ).to_multiset().remove(rb_pairs(*old(node))[i]),
        !removed ==> *final (node) == *old(node),
    decreases rb_pairs(*old(node)).len(),
{
    let mut n = match node.take() {
        Some(n) => n,
        None => {
            return false;
        },
    };
    let ghost pre = rb_pairs(*old(node));
    let ghost pre_left = rb_pairs(n.left);
    let ghost pre_right = rb_pairs(n.right);
    proof {
        assert(pre == pre_left.add(seq![(n.key, n.value)].add(pre_right)));
        lemma_rb_sorted(*old(node));
    }
    let c = (compare_func)(&key, &n.key);
    if c < 0 {
        proof {
            assert(pre_left.len() < pre.len());
        }
        let removed = rb_delete_node(&mut n.left, key, compare_func);
        *node = Some(n);
        proof {
            let nn = node->0;
            let l = rb_pairs(nn.left);
            assert(rb_pairs(*node) == l.add(seq![(nn.key, nn.value)].add(pre_right)));
            if removed {
                let i = choose|i: int|
                    0 <= i < pre_left.len() && (#[trigger] pre_left[i]).0.key() == key.key()
                        && l.to_multiset() == pre_left.to_multiset().remove(pre_left[i]);
                assert(pre[i] == pre_left[i]);
                lemma_rb_delete_ms(nn, pre_left, pre_right, pre_left[i], true);
                assert forall|k: int| 0 <= k < l.len() implies (#[trigger] l[k]).0.key()
                    <= nn.key.key() by {
                    assert(l.contains(l[k]));
                    assert(l.to_multiset().count(l[k]) > 0);
                    assert(pre_left.to_multiset().count(l[k]) > 0);
                    assert(pre_left.contains(l[k]));
                    let w = choose|w: int| 0 <= w < pre_left.len() && pre_left[w] == l[k];
                    assert(pre_left[w].0.key() <= nn.key.key());
                }
                assert(rb_bst_ok(*node));
            } else {
                assert(rb_pairs(*node) =~= pre);
                assert(*node == *old(node));
                assert forall|i: int|
                    0 <= i < pre.len() implies (#[trigger] pre[i]).0.key() != key.key() by {
                    if i < pre_left.len() {
                        assert(pre[i] == pre_left[i]);
                    } else if i == pre_left.len() {
                        assert(pre[i] == (n.key, n.value));
                    } else {
                        assert(pre[i] == pre_right[i - pre_left.len() - 1]);
                        assert(pre_right[i - pre_left.len() - 1].0.key() >= n.key.key());
                    }
                }
            }
        }
        removed
    } else if c > 0 {
        proof {
            assert(pre_right.len() < pre.len());
        }
        let removed = rb_delete_node(&mut n.right, key, compare_func);
        *node = Some(n);
        proof {
            let nn = node->0;
            let r = rb_pairs(nn.right);
            assert(rb_pairs(*node) == pre_left.add(seq![(nn.key, nn.value)].add(r)));
            if removed {
                let i = choose|i: int|
                    0 <= i < pre_right.len() && (#[trigger] pre_right[i]).0.key() == key.key()
                        && r.to_multiset() == pre_right.to_multiset().remove(pre_right[i]);
                assert(pre[pre_left.len() + 1 + i] == pre_right[i]);
                lemma_rb_delete_ms(nn, pre_left, pre_right, pre_right[i], false);
                assert forall|k: int| 0 <= k < r.len() implies (#[trigger] r[k]).0.key()
                    >= nn.key.key() by {
                    assert(r.contains(r[k]));
                    assert(r.to_multiset().count(r[k]) > 0);
                    assert(pre_right.to_multiset().count(r[k]) > 0);
                    assert(pre_right.contains(r[k]));
                    let w = choose|w: int| 0 <= w < pre_right.len() && pre_right[w] == r[k];
                    assert(pre_right[w].0.key() >= nn.key.key());
                }
                assert(rb_bst_ok(*node));
            } else {
                assert(rb_pairs(*node) =~= pre);
                assert(*node == *old(node));
                assert forall|i: int|
                    0 <= i < pre.len() implies (#[trigger] pre[i]).0.key() != key.key() by {
                    if i < pre_left.len() {
                        assert(pre[i] == pre_left[i]);
                        assert(pre_left[i].0.key() <= n.key.key());
                    } else if i == pre_left.len() {
                        assert(pre[i] == (n.key, n.value));
                    } else {
                        assert(pre[i] == pre_right[i - pre_left.len() - 1]);
                    }
                }
            }
        }
        removed
    } else {
        // This node goes; a missing side lifts the other, two sides
        // promote the successor, the least pair of the right subtree.
        proof {
            assert(pre[pre_left.len() as int] == (n.key, n.value));
        }
        if n.left.is_none() {
            let right = n.right.take();
            *node = right;
            proof {
                assert(pre_left =~= Seq::<(T, T)>::empty());
                assert(rb_pairs(*node) =~= pre.drop_first());
                vstd::seq_lib::to_multiset_remove(pre, 0);
                assert(rb_pairs(*node).to_multiset() == pre.to_multiset().remove(pre[0]));
            }
            true
        } else if n.right.is_none() {
            let left = n.left.take();
            *node = left;
            proof {
                assert(pre_right =~= Seq::<(T, T)>::empty());
                assert(rb_pairs(*node) =~= pre.drop_last());
                assert(pre.drop_last() =~= pre.remove(pre_left.len() as int));
                vstd::seq_lib::to_multiset_remove(pre, pre_left.len() as int);
            }
            true
        } else {
            proof {
                assert(pre_right.len() > 0) by {
                    if pre_right.len() == 0 {
                        assert(pre_right =~= Seq::<(T, T)>::empty());
                        assert(n.right is None);
                    }
                }
            }
            let ghost old_pair = (n.key, n.value);
            let succ = rb_pop_min(&mut n.right);
            n.key = succ.0;
            n.value = succ.1;
            *node = Some(n);
            proof {
                let nn = node->0;
                let r = rb_pairs(nn.right);
                assert(r == pre_right.drop_first());
                assert(succ == pre_right[0]);
                assert(rb_pairs(*node) == pre_left.add(seq![(succ.0, succ.1)].add(r)));
                assert((succ.0, succ.1) == succ);
                assert(pre[pre_left.len() as int + 1] == pre_right[0]);
                assert forall|k: int| 0 <= k < pre_left.len() implies (
                #[trigger] pre_left[k]).0.key() <= succ.0.key() by {
                    assert(pre[k] == pre_left[k]);
                }
                assert forall|k: int| 0 <= k < r.len() implies (#[trigger] r[k]).0.key()
                    >= succ.0.key() by {
                    assert(r[k] == pre_right[k + 1]);
                    assert(pre[pre_left.len() as int + 1 + (k + 1)] == pre_right[k + 1]);
                }
                assert(rb_bst_ok(*node));
                // Content: the old pair leaves, everything else stays.
                lemma_rb_succ_ms(pre_left, pre_right, old_pair, succ, pre);
                assert(pre[pre_left.len() as int] == old_pair);
                assert(rb_pairs(*node).to_multiset() == pre.to_multiset().remove(
                    pre[pre_left.len() as int],
                ));
            }
            true
        }
    }
}

/// Promoting the right subtree's least pair in place of the node's own
/// removes exactly the node's pair.
proof fn lemma_rb_succ_ms<T>(
    pre_left: Seq<(T, T)>,
    pre_right: Seq<(T, T)>,
    old_pair: (T, T),
    succ: (T, T),
    pre: Seq<(T, T)>,
)
    requires
        pre_right.len() > 0,
        succ == pre_right[0],
        pre == pre_left.add(seq![old_pair].add(pre_right)),
    ensures
        pre_left.add(seq![succ].add(pre_right.drop_first())).to_multiset()
            == pre.to_multiset().remove(old_pair),
{
    broadcast use vstd::seq_lib::group_to_multiset_ensures;

    let mid_new = seq![succ].add(pre_right.drop_first());
    let new = pre_left.add(mid_new);
    vstd::seq_lib::lemma_multiset_commutative(pre_left, mid_new);
    vstd::seq_lib::lemma_multiset_commutative(seq![succ], pre_right.drop_first());
    vstd::seq_lib::lemma_multiset_commutative(pre_left, seq![old_pair].add(pre_right));
    vstd::seq_lib::lemma_multiset_commutative(seq![old_pair], pre_right);
    assert(pre_right =~= seq![succ].add(pre_right.drop_first()));
    vstd::seq_lib::lemma_multiset_commutative(seq![succ], pre_right.drop_first());
    assert forall|x: (T, T)| new.to_multiset().count(x) == pre.to_multiset().remove(
        old_pair,
    ).count(x) by {
        assert(seq![succ].to_multiset() =~= Multiset::<(T, T)>::empty().insert(succ));
        assert(seq![old_pair].to_multiset() =~= Multiset::<(T, T)>::empty().insert(old_pair));
        assert(pre_right.to_multiset() == seq![succ].add(pre_right.drop_first()).to_multiset());
    }
    assert(new.to_multiset() =~= pre.to_multiset().remove(old_pair));
}

/// Dropping one pair on one side drops exactly that pair from the node's.
proof fn lemma_rb_delete_ms<T>(
    n: Box<RBTreeNode<T>>,
    pre_left: Seq<(T, T)>,
    pre_right: Seq<(T, T)>,
    gone: (T, T),
    went_left: bool,
)
    requires
        went_left ==> rb_pairs(n.left).to_multiset() == pre_left.to_multiset().remove(gone)
            && rb_pairs(n.right) == pre_right && pre_left.to_multiset().count(gone) > 0,
        !went_left ==> rb_pairs(n.right).to_multiset() == pre_right.to_multiset().remove(gone)
            && rb_pairs(n.left) == pre_left && pre_right.to_multiset().count(gone) > 0,
    ensures
        rb_pairs(Some(n)).to_multiset() == pre_left.add(
            seq![(n.key, n.value)].add(pre_right),
        ).to_multiset().remove(gone),
{
    broadcast use vstd::seq_lib::group_to_multiset_ensures;

    let mid = seq![(n.key, n.value)];
    vstd::seq_lib::lemma_multiset_commutative(rb_pairs(n.left), mid.add(rb_pairs(n.right)));
    vstd::seq_lib::lemma_multiset_commutative(mid, rb_pairs(n.right));
    vstd::seq_lib::lemma_multiset_commutative(pre_left, mid.add(pre_right));
    vstd::seq_lib::lemma_multiset_commutative(mid, pre_right);
    assert(rb_pairs(Some(n)).to_multiset() =~= pre_left.add(
        mid.add(pre_right),
    ).to_multiset().remove(gone));
}

/// Removes one pair whose key compares equal to `key`; reports 1 exactly
/// when a pair left the tree.
pub fn rb_tree_remove<T: ArrayListComparable + Copy, F: Fn(&T, &T) -> i32>(
    tree: &mut RBTree<T, F>,
    key: T,
) -> (r: i32)
    requires
        old(tree).wf(),
    ensures
        final (tree).wf(),
        final (tree).compare_func == old(tree).compare_func,
        r == 0 || r == 1,
        r == 1 <==> exists|i: int|
            0 <= i < rb_pairs(old(tree).root_node).len() && (#[trigger] rb_pairs(
                old(tree).root_node,
            )[i]).0.key() == key.key(),
        r == 1 ==> final (tree).num_nodes == old(tree).num_nodes - 1 && exists|i: int|
            0 <= i < rb_pairs(old(tree).root_node).len() && (#[trigger] rb_pairs(
                old(tree).root_node,
            )[i]).0.key() == key.key() && rb_pairs(final (tree).root_node).to_multiset()
                == rb_pairs(old(tree).root_node).to_multiset().remove(
                rb_pairs(old(tree).root_node)[i],
            ),
        r == 0 ==> final (tree).root_node == old(tree).root_node && final (tree).num_nodes == old(
            tree,
        ).num_nodes,
{
    let mut root = tree.root_node.take();
    let removed = rb_delete_node(&mut root, key, &tree.compare_func);
    tree.root_node = root;
    if removed {
        tree.num_nodes = tree.num_nodes - 1;
        1
    } else {
        0
    }
}

/// All values, in the order of their keys.
pub fn rb_tree_to_array<T: ArrayListComparable + Copy, F: Fn(&T, &T) -> i32>(
    tree: &RBTree<T, F>,
) -> (r: Vec<T>)
    requires
        tree.wf(),
    ensures
        r@.len() == tree.num_nodes,
        forall|i: int| 0 <= i < r@.len() ==> r@[i] == (#[trigger] rb_pairs(tree.root_node)[i]).1,
{
    let mut array: Vec<T> = Vec::new();
    rb_to_array_subtree(&tree.root_node, &mut array);
    array
}

/// Appends the values of a subtree to `array` in in-order sequence.
fn rb_to_array_subtree<T: ArrayListComparable + Copy>(
    subtree: &Option<Box<RBTreeNode<T>>>,
    array: &mut Vec<T>,
)
    ensures
        final (array)@ == old(array)@.add(
            Seq::new(rb_pairs(*subtree).len(), |i: int| rb_pairs(*subtree)[i].1),
        ),
    decreases rb_pairs(*subtree).len(),
{
    match subtree {
        None => {
            proof {
                assert(array@ =~= old(array)@.add(
                    Seq::new(rb_pairs(*subtree).len(), |i: int| rb_pairs(*subtree)[i].1),
                ));
            }
        },
        Some(n) => {
            proof {
                assert(rb_pairs(*subtree) == rb_pairs(n.left).add(
                    seq![(n.key, n.value)].add(rb_pairs(n.right)),
                ));
            }
            rb_to_array_subtree(&n.left, array);
            array.push(n.value);
            rb_to_array_subtree(&n.right, array);
            proof {
                let whole = rb_pairs(*subtree);
                assert(array@ =~= old(array)@.add(Seq::new(whole.len(), |i: int| whole[i].1)));
            }
        },
    }
}

} // verus!
