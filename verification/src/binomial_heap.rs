//! A mergeable priority queue: a binomial forest of immutable, reference
//! counted trees, supporting insertion, extraction of the extremal element
//! and union of two forests, under a caller-supplied total ordering and a
//! min/max mode.
//!
//! Nodes are shared through `Rc` handles and never mutated after
//! construction; every structural change builds new nodes that reference old
//! ones.  Allocation failure is modelled by an explicit allocation limit on
//! the forest: an operation that would allocate more nodes and root arrays
//! than the limit permits fails and leaves every forest involved unchanged.

use std::rc::Rc;
use vstd::multiset::Multiset;
use vstd::prelude::*;

verus! {

broadcast use vstd::multiset::group_multiset_axioms;

/// Whether the forest hands out the least element under the comparator
/// (`Min`) or the greatest (`Max`).
#[derive(PartialEq, Eq, Structural, Clone, Copy, Debug)]
pub enum BinomialHeapType {
    Min,
    Max,
}

pub const BINOMIAL_HEAP_TYPE_MIN: BinomialHeapType = BinomialHeapType::Min;

pub const BINOMIAL_HEAP_TYPE_MAX: BinomialHeapType = BinomialHeapType::Max;

/// A value stored in the forest.
#[derive(PartialEq, Eq, Structural, Clone, Copy, Debug)]
pub struct BinomialHeapValue(pub i32);

/// A binomial tree of order `k`: one value and `k` shared subtrees of orders
/// `0, 1, ..., k - 1`, in that order.  A tree of order `k` holds exactly
/// `2^k` values.  Trees are immutable once built and shared by reference.
pub struct BinomialTree {
    pub value: BinomialHeapValue,
    pub order: usize,
    pub subtrees: Vec<Rc<BinomialTree>>,
}

/// The outcome of `binomial_heap_pop`: the forest was empty, a value was
/// extracted, or the internal re-merge ran out of allocations and the forest
/// was left unchanged.
#[derive(PartialEq, Eq, Structural, Clone, Copy, Debug)]
pub enum BinomialHeapPopResult {
    Empty,
    Value(BinomialHeapValue),
    Failure,
}

/// A binomial forest: at most one tree per order, `roots[k]` holding the
/// tree of order `k` if one is present.
pub struct BinomialHeap<F: Fn(BinomialHeapValue, BinomialHeapValue) -> i32> {
    pub heap_type: BinomialHeapType,
    pub compare_func: F,
    /// The ordering the forest hands values out in: the comparator's own
    /// order under `Min`, its reverse under `Max`.
    pub ord: Ghost<spec_fn(i32, i32) -> bool>,
    pub num_values: u64,
    pub roots: Vec<Option<Rc<BinomialTree>>>,
    /// When `Some(n)`, a mutating operation that needs more than `n`
    /// allocations (tree nodes and root arrays together) reports allocation
    /// failure instead of touching the forest.
    pub alloc_limit: Option<u64>,
}

/// A total preorder on values: reflexive, total and transitive.
pub open spec fn leq_total(leq: spec_fn(i32, i32) -> bool) -> bool {
    &&& forall|x: i32| #[trigger] leq(x, x)
    &&& forall|x: i32, y: i32| #[trigger] leq(x, y) || #[trigger] leq(y, x)
    &&& forall|x: i32, y: i32, z: i32| #[trigger] leq(x, y) && #[trigger] leq(y, z) ==> leq(x, z)
}

/// The comparator contract: the comparator can be called on every pair,
/// and every result it may return reports the ordering `leq` exactly --
/// under `Min` as it stands, under `Max` with the sides swapped, so that
/// the mode reverses the order.  Results stay above `i32::MIN` so that the
/// max-mode negation cannot overflow.
pub open spec fn cmp_matches<F: Fn(BinomialHeapValue, BinomialHeapValue) -> i32>(
    f: F,
    ht: BinomialHeapType,
    leq: spec_fn(i32, i32) -> bool,
) -> bool {
    &&& forall|a: BinomialHeapValue, b: BinomialHeapValue| #[trigger] call_requires(f, (a, b))
    &&& forall|a: BinomialHeapValue, b: BinomialHeapValue, r: i32|
        #[trigger] call_ensures(f, (a, b), r) ==> r > i32::MIN && if ht
            == BinomialHeapType::Min {
            (r <= 0 <==> leq(a.0, b.0)) && (r >= 0 <==> leq(b.0, a.0))
        } else {
            (r <= 0 <==> leq(b.0, a.0)) && (r >= 0 <==> leq(a.0, b.0))
        }
}

/// `a` comes out no later than `b` under the ordering.
pub open spec fn heap_le(leq: spec_fn(i32, i32) -> bool, a: i32, b: i32) -> bool {
    leq(a, b)
}

/// All values held by the tree `t`, as a multiset.
pub open spec fn tree_elems(t: BinomialTree) -> Multiset<i32>
    decreases t.order, 1int, 0int,
{
    prefix_elems(t.subtrees@, t.subtrees@.len() as int, t.order as int).insert(t.value.0)
}

/// All values held by the first `n` trees of `s` whose order lies below
/// `bound`; the bound guards the recursion.
pub open spec fn prefix_elems(s: Seq<Rc<BinomialTree>>, n: int, bound: int) -> Multiset<i32>
    decreases bound, 0int, n,
{
    if n <= 0 {
        Multiset::empty()
    } else {
        let rest = prefix_elems(s, n - 1, bound);
        if s[n - 1].order < bound {
            rest.add(tree_elems(*s[n - 1]))
        } else {
            rest
        }
    }
}

/// Structural well-formedness: a tree of order `k` has exactly `k` subtrees,
/// the one at position `j` having order `j`, each well-formed in turn.
pub open spec fn tree_wf(t: BinomialTree) -> bool
    decreases t.order, 0int, 0int,
{
    &&& t.subtrees@.len() == t.order
    &&& forall|j: int|
        0 <= j < t.subtrees@.len() ==> (#[trigger] t.subtrees@[j]).order == j
    &&& forall|j: int|
        0 <= j < t.subtrees@.len() && t.subtrees@[j].order < t.order ==> tree_wf(
            *t.subtrees@[j],
        )
}

/// The ordering property: the value at the top of `t` comes out no later
/// than anything held by its subtrees, recursively.
pub open spec fn tree_ordered(t: BinomialTree, leq: spec_fn(i32, i32) -> bool) -> bool
    decreases t.order, 2int, 0int,
{
    &&& forall|j: int, x: i32|
        0 <= j < t.subtrees@.len() && t.subtrees@[j].order < t.order && #[trigger] tree_elems(
            *t.subtrees@[j],
        ).count(x) > 0 ==> heap_le(leq, t.value.0, x)
    &&& forall|j: int|
        0 <= j < t.subtrees@.len() && (#[trigger] t.subtrees@[j]).order < t.order
            ==> tree_ordered(*t.subtrees@[j], leq)
}

/// The tree at position `j` of a subtree sequence.
pub open spec fn tree_at(s: Seq<Rc<BinomialTree>>, j: int) -> BinomialTree {
    *s[j]
}

/// All values held by the first `n` root slots of `s`.
pub open spec fn roots_elems_upto(s: Seq<Option<Rc<BinomialTree>>>, n: int) -> Multiset<i32>
    decreases n,
{
    if n <= 0 {
        Multiset::empty()
    } else {
        roots_elems_upto(s, n - 1).add(slot_elems(s, n - 1))
    }
}

/// The values held by root slot `k` of `s`: empty when the slot is empty or
/// out of range.
pub open spec fn slot_elems(s: Seq<Option<Rc<BinomialTree>>>, k: int) -> Multiset<i32> {
    if 0 <= k < s.len() && s[k] is Some {
        tree_elems(*s[k]->0)
    } else {
        Multiset::empty()
    }
}

/// Every occupied slot `k` of `s` holds a well-formed, ordered tree of
/// order `k`.
pub open spec fn roots_ok(s: Seq<Option<Rc<BinomialTree>>>, leq: spec_fn(i32, i32) -> bool) -> bool {
    forall|k: int|
        0 <= k < s.len() ==> match #[trigger] s[k] {
            Some(t) => t.order == k && tree_wf(*t) && tree_ordered(*t, leq),
            None => true,
        }
}

/// 2 to the power `k`.
pub open spec fn pow2(k: nat) -> nat
    decreases k,
{
    if k == 0 {
        1
    } else {
        2 * pow2((k - 1) as nat)
    }
}

impl<F: Fn(BinomialHeapValue, BinomialHeapValue) -> i32> BinomialHeap<F> {
    /// All values held by the forest, as a multiset.
    pub open spec fn elems(self) -> Multiset<i32> {
        roots_elems_upto(self.roots@, self.roots@.len() as int)
    }

    /// The forest invariant: a comparator that reports the forest's
    /// ordering, one well-formed ordered tree per occupied order, no empty
    /// slot past the last occupied one, and a count equal to the number of
    /// values held.
    pub open spec fn wf(self) -> bool {
        &&& cmp_matches(self.compare_func, self.heap_type, self.ord@)
        &&& leq_total(self.ord@)
        &&& roots_ok(self.roots@, self.ord@)
        &&& self.roots@.len() > 0 ==> self.roots@.last() is Some
        &&& self.num_values == self.elems().len()
    }

    /// The forest of `self`, with its trees ordered by `leq`.  Merging
    /// draws both arguments' trees together under the ordering of the
    /// destination, so the source must be ordered the same way.
    pub open spec fn wf_for(self, leq: spec_fn(i32, i32) -> bool) -> bool {
        &&& roots_ok(self.roots@, leq)
        &&& self.roots@.len() > 0 ==> self.roots@.last() is Some
        &&& self.num_values == self.elems().len()
    }
}

/// Every value in a prefix sum of subtree multisets comes from one of the
/// subtrees counted.
proof fn lemma_prefix_elems_member(s: Seq<Rc<BinomialTree>>, n: int, bound: int, x: i32)
    requires
        prefix_elems(s, n, bound).count(x) > 0,
    ensures
        exists|j: int|
            0 <= j < n && s[j].order < bound && #[trigger] tree_elems(*s[j]).count(x) > 0,
    decreases n,
{
    if n > 0 {
        if s[n - 1].order < bound && tree_elems(tree_at(s, n - 1)).count(x) > 0 {
        } else {
            lemma_prefix_elems_member(s, n - 1, bound, x);
        }
    }
}

/// The top of a well-formed, ordered tree comes out no later than anything
/// the tree holds.
proof fn lemma_top_le_all(t: BinomialTree, leq: spec_fn(i32, i32) -> bool)
    requires
        leq_total(leq),
        tree_wf(t),
        tree_ordered(t, leq),
    ensures
        forall|x: i32| #[trigger] tree_elems(t).count(x) > 0 ==> heap_le(leq, t.value.0, x),
{
    assert forall|x: i32| #[trigger] tree_elems(t).count(x) > 0 implies heap_le(
        leq,
        t.value.0,
        x,
    ) by {
        if x == t.value.0 {
            assert(heap_le(leq, x, x));
        } else {
            let s = t.subtrees@;
            let pe = prefix_elems(s, s.len() as int, t.order as int);
            assert(tree_elems(t).count(x) == pe.insert(t.value.0).count(x));
            if pe.count(x) > 0 {
                lemma_prefix_elems_member(s, s.len() as int, t.order as int, x);
            }
        }
    }
}

/// A prefix sum over subtrees of orders `0, 1, ..., n - 1` holds
/// `2^n - 1` values.
proof fn lemma_prefix_elems_len(s: Seq<Rc<BinomialTree>>, n: int, bound: int)
    requires
        0 <= n <= s.len(),
        n <= bound,
        forall|j: int| 0 <= j < n ==> (#[trigger] s[j]).order == j,
        forall|j: int| 0 <= j < n && s[j].order < bound ==> tree_wf(*s[j]),
    ensures
        prefix_elems(s, n, bound).len() == pow2(n as nat) - 1,
    decreases bound, 0int, n,
{
    if n > 0 {
        lemma_prefix_elems_len(s, n - 1, bound);
        lemma_tree_size(tree_at(s, n - 1));
        lemma_pow2_monotone((n - 1) as nat, n as nat);
    }
}

/// A well-formed tree of order `k` holds exactly `2^k` values.
pub proof fn lemma_tree_size(t: BinomialTree)
    requires
        tree_wf(t),
    ensures
        tree_elems(t).len() == pow2(t.order as nat),
    decreases t.order, 1int, 0int,
{
    lemma_prefix_elems_len(t.subtrees@, t.subtrees@.len() as int, t.order as int);
}

/// Powers of two do not decrease.
pub proof fn lemma_pow2_monotone(a: nat, b: nat)
    requires
        a <= b,
    ensures
        pow2(a) <= pow2(b),
    decreases b,
{
    if a < b {
        lemma_pow2_monotone(a, (b - 1) as nat);
    }
}

/// Two equal subtree prefixes, each within its bound, hold the same values.
proof fn lemma_prefix_elems_congruent(
    s1: Seq<Rc<BinomialTree>>,
    s2: Seq<Rc<BinomialTree>>,
    n: int,
    b1: int,
    b2: int,
)
    requires
        forall|j: int| 0 <= j < n ==> s1[j] == s2[j],
        forall|j: int| 0 <= j < n ==> (#[trigger] s1[j]).order < b1 && s1[j].order < b2,
    ensures
        prefix_elems(s1, n, b1) == prefix_elems(s2, n, b2),
    decreases n,
{
    if n > 0 {
        lemma_prefix_elems_congruent(s1, s2, n - 1, b1, b2);
    }
}

/// The mode-oriented comparison of two values: the comparator's own
/// answer under `Min`, its negation under `Max`, so that the sign reports
/// the forest's own ordering.
pub fn binomial_heap_cmp<F: Fn(BinomialHeapValue, BinomialHeapValue) -> i32>(
    heap: &BinomialHeap<F>,
    data1: BinomialHeapValue,
    data2: BinomialHeapValue,
) -> (r: i32)
    requires
        cmp_matches(heap.compare_func, heap.heap_type, heap.ord@),
    ensures
        r <= 0 <==> heap.ord@(data1.0, data2.0),
        r >= 0 <==> heap.ord@(data2.0, data1.0),
        exists|c: i32|
            #[trigger] call_ensures(heap.compare_func, (data1, data2), c) && r as int == if heap.heap_type
                == BinomialHeapType::Min {
                c as int
            } else {
                -(c as int)
            },
{
    let c = (heap.compare_func)(data1, data2);
    let r = if heap.heap_type == BinomialHeapType::Min {
        c
    } else {
        -c
    };
    proof {
        assert(call_ensures(heap.compare_func, (data1, data2), c) && r as int
            == if heap.heap_type == BinomialHeapType::Min {
            c as int
        } else {
            -(c as int)
        });
    }
    r
}

/// Combines two trees of one order into a tree of the next order.  The value
/// that wins the oriented comparison (ties favour the first argument) keeps
/// its subtrees, all shared by reference, and the losing tree is appended as
/// the new last subtree; the arguments themselves are left untouched.
pub fn binomial_tree_merge<F: Fn(BinomialHeapValue, BinomialHeapValue) -> i32>(
    heap: &BinomialHeap<F>,
    tree1: &Rc<BinomialTree>,
    tree2: &Rc<BinomialTree>,
) -> (r: Rc<BinomialTree>)
    requires
        cmp_matches(heap.compare_func, heap.heap_type, heap.ord@),
        leq_total(heap.ord@),
        tree1.order == tree2.order,
        tree1.order < usize::MAX,
        tree_wf(**tree1),
        tree_wf(**tree2),
        tree_ordered(**tree1, heap.ord@),
        tree_ordered(**tree2, heap.ord@),
    ensures
        r.order == tree1.order + 1,
        tree_wf(**(&r)),
        tree_ordered(**(&r), heap.ord@),
        tree_elems(**(&r)) == tree_elems(**tree1).add(tree_elems(**tree2)),
        heap_le(heap.ord@, tree1.value.0, tree2.value.0) ==> r.value == tree1.value
            && r.subtrees@ == tree1.subtrees@.push(*tree2),
        !heap_le(heap.ord@, tree1.value.0, tree2.value.0) ==> r.value == tree2.value
            && r.subtrees@ == tree2.subtrees@.push(*tree1),
{
    let ghost leq = heap.ord@;
    let c = binomial_heap_cmp(heap, tree1.value, tree2.value);
    let (winner, loser): (&Rc<BinomialTree>, &Rc<BinomialTree>) = if c > 0 {
        (tree2, tree1)
    } else {
        (tree1, tree2)
    };
    proof {
        assert(heap_le(leq, winner.value.0, loser.value.0));
    }
    let k = winner.order;
    let mut subtrees: Vec<Rc<BinomialTree>> = Vec::new();
    let mut i: usize = 0;
    while i < k
        invariant
            tree_wf(**winner),
            i <= k,
            k == winner.order,
            winner.subtrees@.len() == k,
            subtrees@.len() == i,
            forall|j: int| 0 <= j < i ==> subtrees@[j] == winner.subtrees@[j],
        decreases k - i,
    {
        subtrees.push(winner.subtrees[i].clone());
        i += 1;
    }
    subtrees.push(loser.clone());
    let new_tree = Rc::new(
        BinomialTree { value: winner.value, order: k + 1, subtrees },
    );
    proof {
        let nt = **(&new_tree);
        let ns = nt.subtrees@;
        let w = **winner;
        let l = **loser;
        assert(ns.len() == k + 1);
        assert(ns[k as int] == *loser);
        assert forall|j: int| 0 <= j < ns.len() implies (#[trigger] ns[j]).order == j by {
            if j < k {
                assert(ns[j] == w.subtrees@[j]);
            }
        }
        assert(tree_wf(nt));
        lemma_top_le_all(l, leq);
        assert forall|j: int, x: i32|
            0 <= j < ns.len() && ns[j].order < nt.order && #[trigger] tree_elems(
                tree_at(ns, j),
            ).count(x) > 0 implies heap_le(leq, nt.value.0, x) by {
            if j < k {
                assert(tree_elems(tree_at(w.subtrees@, j)).count(x) > 0);
            } else {
                assert(tree_elems(l).count(x) > 0);
                assert(heap_le(leq, l.value.0, x));
            }
        }
        assert(tree_ordered(nt, leq));
        // The winner of the oriented comparison keeps its value on top; its
        // subtrees are shared by reference into the first slots and the
        // loser is appended as the last subtree.
        assert(ns =~= w.subtrees@.push(*loser));
        if heap_le(leq, tree1.value.0, tree2.value.0) {
            assert(c <= 0);
        } else {
            assert(c > 0);
        }
        // The new tree holds the winner's values plus the loser's values.
        lemma_prefix_elems_congruent(ns, w.subtrees@, k as int, (k + 1) as int, k as int);
        assert(prefix_elems(ns, (k + 1) as int, (k + 1) as int) == prefix_elems(
            ns,
            k as int,
            (k + 1) as int,
        ).add(tree_elems(l)));
        assert(tree_elems(nt) =~= tree_elems(w).add(tree_elems(l)));
        assert(tree_elems(w).add(tree_elems(l)) =~= tree_elems(**tree1).add(tree_elems(**tree2)));
    }
    new_tree
}

/// Takes one more shared reference to a tree; with reference-counted
/// handles this is a handle clone.
pub fn binomial_tree_ref(tree: &Option<Rc<BinomialTree>>) -> (r: Option<Rc<BinomialTree>>)
    ensures
        r == *tree,
{
    match tree {
        Some(t) => Some(t.clone()),
        None => None,
    }
}

/// Releases one shared reference to a tree.  The handle is dropped; the
/// node itself, and recursively its subtrees, are freed by the reference
/// counting exactly when their last owner lets go.
pub fn binomial_tree_unref(tree: Option<Rc<BinomialTree>>) {
    let _ = tree;
}

/// Creates an empty forest with the given mode and comparator, and no
/// allocation limit.  The forest's ordering is one the comparator reports,
/// when the comparator reports any total ordering at all; the ordering is
/// picked opaquely, so two forests made this way cannot be proven to share
/// one.  A caller that reasons about several forests together — merging
/// them, say — names the ordering itself with
/// `binomial_heap_new_with_order`.
pub fn binomial_heap_new<F: Fn(BinomialHeapValue, BinomialHeapValue) -> i32>(
    heap_type: BinomialHeapType,
    compare_func: F,
) -> (r: Option<BinomialHeap<F>>)
    ensures
        r matches Some(h) && h.heap_type == heap_type && h.compare_func == compare_func
            && h.num_values == 0 && h.roots@.len() == 0 && h.alloc_limit is None && h.elems()
            =~= Multiset::<i32>::empty() && ((exists|l: spec_fn(i32, i32) -> bool|
            cmp_matches(compare_func, heap_type, l) && leq_total(l)) ==> h.wf()),
{
    let ghost chosen = choose|l: spec_fn(i32, i32) -> bool|
        cmp_matches(compare_func, heap_type, l) && leq_total(l);
    Some(
        BinomialHeap {
            heap_type,
            compare_func,
            ord: Ghost(chosen),
            num_values: 0,
            roots: Vec::new(),
            alloc_limit: None,
        },
    )
}

/// Creates an empty forest whose ordering is given outright, so that a
/// caller reasoning about the forest can name the order its values come
/// out in.
pub fn binomial_heap_new_with_order<F: Fn(BinomialHeapValue, BinomialHeapValue) -> i32>(
    heap_type: BinomialHeapType,
    compare_func: F,
    order: Ghost<spec_fn(i32, i32) -> bool>,
) -> (r: Option<BinomialHeap<F>>)
    ensures
        r matches Some(h) && h.heap_type == heap_type && h.compare_func == compare_func
            && h.ord == order && h.num_values == 0 && h.roots@.len() == 0 && h.alloc_limit
            is None && h.elems() =~= Multiset::<i32>::empty() && (cmp_matches(
            compare_func,
            heap_type,
            order@,
        ) && leq_total(order@) ==> h.wf()),
{
    Some(
        BinomialHeap {
            heap_type,
            compare_func,
            ord: order,
            num_values: 0,
            roots: Vec::new(),
            alloc_limit: None,
        },
    )
}

/// The number of values the forest holds.
pub fn binomial_heap_num_entries<F: Fn(BinomialHeapValue, BinomialHeapValue) -> i32>(
    heap: &BinomialHeap<F>,
) -> (r: u64)
    ensures
        r == heap.num_values,
{
    heap.num_values
}

/// Caps the number of allocations the next mutating operations may make, or
/// lifts the cap; used to exercise the allocation-failure paths.
pub fn binomial_heap_set_alloc_limit<F: Fn(BinomialHeapValue, BinomialHeapValue) -> i32>(
    heap: &mut BinomialHeap<F>,
    limit: Option<u64>,
)
    ensures
        final (heap).alloc_limit == limit,
        final (heap).heap_type == old(heap).heap_type,
        final (heap).compare_func == old(heap).compare_func,
        final (heap).ord == old(heap).ord,
        final (heap).num_values == old(heap).num_values,
        final (heap).roots@ == old(heap).roots@,
{
    heap.alloc_limit = limit;
}

/// The values held by an optional tree.
pub open spec fn opt_elems(c: Option<Rc<BinomialTree>>) -> Multiset<i32> {
    match c {
        Some(t) => tree_elems(*t),
        None => Multiset::empty(),
    }
}

/// Summing root slots ignores everything past the slots that exist.
proof fn lemma_roots_upto_beyond(s: Seq<Option<Rc<BinomialTree>>>, n: int)
    requires
        n >= s.len(),
    ensures
        roots_elems_upto(s, n) == roots_elems_upto(s, s.len() as int),
    decreases n,
{
    if n > s.len() {
        lemma_roots_upto_beyond(s, n - 1);
        assert(slot_elems(s, n - 1) == Multiset::<i32>::empty());
        assert(roots_elems_upto(s, n) =~= roots_elems_upto(s, n - 1));
    }
}

/// Two root sequences with the same slots up to `n` hold the same values
/// up to `n`.
proof fn lemma_roots_upto_congruent(
    s1: Seq<Option<Rc<BinomialTree>>>,
    s2: Seq<Option<Rc<BinomialTree>>>,
    n: int,
)
    requires
        forall|k: int| 0 <= k < n ==> slot_elems(s1, k) == slot_elems(s2, k),
    ensures
        roots_elems_upto(s1, n) == roots_elems_upto(s2, n),
    decreases n,
{
    if n > 0 {
        lemma_roots_upto_congruent(s1, s2, n - 1);
    }
}

/// The carry-propagation merge: walks the orders of `heap` and
/// `other_roots` together like binary addition, combining the two trees of
/// a pair into a carry of the next order, and writes the resulting forest
/// into `heap`.  `pre_allocated` counts allocations the caller has already
/// spent against the forest's allocation limit; on allocation failure the
/// forest is left exactly as it was.  `heap.num_values` is not touched.
#[verifier::rlimit(100)]
fn merge_roots<F: Fn(BinomialHeapValue, BinomialHeapValue) -> i32>(
    heap: &mut BinomialHeap<F>,
    other_roots: &Vec<Option<Rc<BinomialTree>>>,
    pre_allocated: u64,
) -> (r: i32)
    requires
        cmp_matches(old(heap).compare_func, old(heap).heap_type, old(heap).ord@),
        leq_total(old(heap).ord@),
        roots_ok(old(heap).roots@, old(heap).ord@),
        roots_ok(other_roots@, old(heap).ord@),
        old(heap).roots@.len() <= 64,
        other_roots@.len() <= 64,
        pre_allocated <= 8,
    ensures
        r == 0 || r == 1,
        final (heap).heap_type == old(heap).heap_type,
        final (heap).compare_func == old(heap).compare_func,
        final (heap).ord == old(heap).ord,
        final (heap).num_values == old(heap).num_values,
        final (heap).alloc_limit == old(heap).alloc_limit,
        r == 0 ==> final (heap).roots@ == old(heap).roots@ && old(heap).alloc_limit is Some,
        r == 1 ==> roots_ok(final (heap).roots@, old(heap).ord@) && (final (heap).roots@.len() > 0
            ==> final (heap).roots@.last() is Some) && final (heap).elems() == old(
            heap,
        ).elems().add(roots_elems_upto(other_roots@, other_roots@.len() as int)),
        old(heap).alloc_limit is None ==> r == 1,
{
    let ghost leq = heap.ord@;
    let ghost old_roots = heap.roots@;
    let ghost other_elems = roots_elems_upto(other_roots@, other_roots@.len() as int);
    let len_self = heap.roots.len();
    let len_other = other_roots.len();
    let max = if len_self > len_other {
        len_self + 1
    } else {
        len_other + 1
    };
    let mut used: u64 = pre_allocated;
    // The new root array is itself one allocation.
    match heap.alloc_limit {
        Some(l) => {
            if used >= l {
                return 0;
            }
        },
        None => {},
    }
    used = used + 1;
    let mut new_roots: Vec<Option<Rc<BinomialTree>>> = Vec::new();
    let mut carry: Option<Rc<BinomialTree>> = None;
    let mut i: usize = 0;
    while i < max
        invariant
            cmp_matches(heap.compare_func, heap.heap_type, leq),
            leq_total(leq),
            heap.heap_type == old(heap).heap_type,
            heap.compare_func == old(heap).compare_func,
            heap.ord@ == leq,
            heap.ord == old(heap).ord,
            heap.roots@ == old_roots,
            heap.num_values == old(heap).num_values,
            heap.alloc_limit == old(heap).alloc_limit,
            roots_ok(old_roots, leq),
            roots_ok(other_roots@, leq),
            len_self == old_roots.len(),
            len_other == other_roots@.len(),
            len_self <= 64,
            len_other <= 64,
            max == if len_self > len_other {
                len_self + 1
            } else {
                len_other + 1
            },
            i <= max,
            new_roots@.len() == i,
            pre_allocated <= 8,
            used <= pre_allocated + 1 + i,
            heap.alloc_limit matches Some(l) ==> used <= l,
            carry matches Some(t) ==> t.order == i && tree_wf(*t) && tree_ordered(*t, leq),
            carry is Some ==> i < max,
            forall|k: int|
                0 <= k < i ==> match #[trigger] new_roots@[k] {
                    Some(t) => t.order == k && tree_wf(*t) && tree_ordered(*t, leq),
                    None => true,
                },
            roots_elems_upto(new_roots@, i as int).add(opt_elems(carry)) == roots_elems_upto(
                old_roots,
                i as int,
            ).add(roots_elems_upto(other_roots@, i as int)),
        decreases max - i,
    {
        let a: Option<Rc<BinomialTree>> = if i < heap.roots.len() {
            binomial_tree_ref(&heap.roots[i])
        } else {
            None
        };
        let b: Option<Rc<BinomialTree>> = if i < other_roots.len() {
            binomial_tree_ref(&other_roots[i])
        } else {
            None
        };
        let c_in = carry;
        let ghost pre_sum = roots_elems_upto(new_roots@, i as int).add(opt_elems(c_in));
        proof {
            assert(roots_elems_upto(old_roots, i + 1) == roots_elems_upto(old_roots, i as int).add(
                slot_elems(old_roots, i as int),
            ));
            assert(roots_elems_upto(other_roots@, i + 1) == roots_elems_upto(
                other_roots@,
                i as int,
            ).add(slot_elems(other_roots@, i as int)));
            assert(opt_elems(a) == slot_elems(old_roots, i as int));
            assert(opt_elems(b) == slot_elems(other_roots@, i as int));
        }
        // Collect the up-to-three candidates of this order, in the fixed
        // precedence self root, other root, carry.  An odd number of
        // candidates leaves the last-collected one as this order's root; a
        // pair is combined into the carry for the next order.
        let new_root: Option<Rc<BinomialTree>>;
        let pair: Option<(Rc<BinomialTree>, Rc<BinomialTree>)>;
        match (a, b, c_in) {
            (None, None, None) => {
                new_root = None;
                pair = None;
            },
            (Some(x), None, None) => {
                new_root = Some(x);
                pair = None;
            },
            (None, Some(y), None) => {
                new_root = Some(y);
                pair = None;
            },
            (None, None, Some(z)) => {
                new_root = Some(z);
                pair = None;
            },
            (Some(x), Some(y), None) => {
                new_root = None;
                pair = Some((x, y));
            },
            (Some(x), None, Some(z)) => {
                new_root = None;
                pair = Some((x, z));
            },
            (None, Some(y), Some(z)) => {
                new_root = None;
                pair = Some((y, z));
            },
            (Some(x), Some(y), Some(z)) => {
                new_root = Some(z);
                pair = Some((x, y));
            },
        }
        match pair {
            Some((t1, t2)) => {
                // Combining a pair allocates one tree node.
                match heap.alloc_limit {
                    Some(l) => {
                        if used >= l {
                            return 0;
                        }
                    },
                    None => {},
                }
                used = used + 1;
                let merged = binomial_tree_merge(heap, &t1, &t2);
                proof {
                    assert(opt_elems(Some(merged)) == tree_elems(*t1).add(tree_elems(*t2)));
                }
                carry = Some(merged);
            },
            None => {
                carry = None;
            },
        }
        proof {
            assert(roots_elems_upto(new_roots@.push(new_root), i + 1) == roots_elems_upto(
                new_roots@.push(new_root),
                i as int,
            ).add(slot_elems(new_roots@.push(new_root), i as int)));
            lemma_roots_upto_congruent(new_roots@.push(new_root), new_roots@, i as int);
            assert(slot_elems(new_roots@.push(new_root), i as int) == opt_elems(new_root));
            assert(roots_elems_upto(new_roots@.push(new_root), i + 1).add(opt_elems(carry))
                =~= pre_sum.add(opt_elems(a)).add(opt_elems(b)));
            assert(roots_elems_upto(old_roots, i + 1).add(roots_elems_upto(other_roots@, i + 1))
                =~= roots_elems_upto(old_roots, i as int).add(
                roots_elems_upto(other_roots@, i as int),
            ).add(opt_elems(a)).add(opt_elems(b)));
        }
        new_roots.push(new_root);
        i += 1;
    }
    proof {
        assert(carry is None);
        assert(roots_elems_upto(new_roots@, max as int) == roots_elems_upto(
            old_roots,
            max as int,
        ).add(roots_elems_upto(other_roots@, max as int)));
        lemma_roots_upto_beyond(old_roots, max as int);
        lemma_roots_upto_beyond(other_roots@, max as int);
    }
    // Drop the empty slots above the highest occupied order.
    while new_roots.len() > 0 && new_roots[new_roots.len() - 1].is_none()
        invariant
            forall|k: int|
                0 <= k < new_roots@.len() ==> match #[trigger] new_roots@[k] {
                    Some(t) => t.order == k && tree_wf(*t) && tree_ordered(*t, leq),
                    None => true,
                },
            roots_elems_upto(new_roots@, new_roots@.len() as int) == roots_elems_upto(
                old_roots,
                old_roots.len() as int,
            ).add(other_elems),
        decreases new_roots@.len(),
    {
        let ghost pre = new_roots@;
        new_roots.pop();
        proof {
            assert(new_roots@ == pre.drop_last());
            lemma_roots_upto_congruent(pre, new_roots@, new_roots@.len() as int);
            assert(roots_elems_upto(pre, pre.len() as int) == roots_elems_upto(
                pre,
                pre.len() - 1,
            ).add(slot_elems(pre, pre.len() - 1)));
            assert(slot_elems(pre, pre.len() - 1) == Multiset::<i32>::empty());
            assert(roots_elems_upto(new_roots@, new_roots@.len() as int) =~= roots_elems_upto(
                pre,
                pre.len() as int,
            ));
        }
    }
    // The old root array gives up its references as it is replaced.
    heap.roots = new_roots;
    1
}

/// The tree in root slot `k` of `s`, which must be occupied.
pub open spec fn slot_tree(s: Seq<Option<Rc<BinomialTree>>>, k: int) -> BinomialTree {
    *s[k]->0
}

/// 2 to the 64 exceeds `u64::MAX`.
proof fn lemma_pow2_64()
    ensures
        pow2(64) > u64::MAX,
{
    assert(pow2(64) == 0x10000000000000000nat) by {
        reveal_with_fuel(pow2, 65);
    };
}

/// A forest whose count fits in a `u64` has no root slot at order 64 or
/// beyond.
proof fn lemma_roots_len_bound(s: Seq<Option<Rc<BinomialTree>>>, leq: spec_fn(i32, i32) -> bool)
    requires
        roots_ok(s, leq),
        s.len() > 0 ==> s.last() is Some,
        roots_elems_upto(s, s.len() as int).len() <= u64::MAX,
    ensures
        s.len() <= 64,
{
    if s.len() > 64 {
        let n = s.len() as int;
        let t = slot_tree(s, n - 1);
        assert(t.order == n - 1 && tree_wf(t));
        lemma_tree_size(t);
        lemma_pow2_monotone(64, t.order as nat);
        lemma_pow2_64();
        assert(roots_elems_upto(s, n) == roots_elems_upto(s, n - 1).add(slot_elems(s, n - 1)));
        assert(slot_elems(s, n - 1) == tree_elems(t));
        assert(roots_elems_upto(s, n).len() >= pow2(t.order as nat));
    }
}

/// A value held by one of the first `n` root slots is held by one of those
/// slots' trees.
proof fn lemma_roots_member(s: Seq<Option<Rc<BinomialTree>>>, n: int, x: i32)
    requires
        roots_elems_upto(s, n).count(x) > 0,
    ensures
        exists|k: int| 0 <= k < n && (#[trigger] slot_elems(s, k)).count(x) > 0,
    decreases n,
{
    if n > 0 {
        if slot_elems(s, n - 1).count(x) > 0 {
        } else {
            lemma_roots_member(s, n - 1, x);
        }
    }
}

/// Root slots that are all empty hold nothing.
proof fn lemma_roots_all_none(s: Seq<Option<Rc<BinomialTree>>>, n: int)
    requires
        forall|k: int| 0 <= k < n ==> !(#[trigger] s[k] is Some),
    ensures
        roots_elems_upto(s, n) == Multiset::<i32>::empty(),
    decreases n,
{
    if n > 0 {
        lemma_roots_all_none(s, n - 1);
        assert(roots_elems_upto(s, n) =~= roots_elems_upto(s, n - 1));
    }
}

/// Replacing root slot `k` trades that slot's values for the new ones.
proof fn lemma_roots_upto_update(
    s: Seq<Option<Rc<BinomialTree>>>,
    n: int,
    k: int,
    x: Option<Rc<BinomialTree>>,
)
    requires
        0 <= k < n,
        n <= s.len(),
    ensures
        roots_elems_upto(s.update(k, x), n).add(slot_elems(s, k)) == roots_elems_upto(
            s,
            n,
        ).add(opt_elems(x)),
    decreases n,
{
    let su = s.update(k, x);
    assert(roots_elems_upto(su, n) == roots_elems_upto(su, n - 1).add(slot_elems(su, n - 1)));
    assert(roots_elems_upto(s, n) == roots_elems_upto(s, n - 1).add(slot_elems(s, n - 1)));
    if k == n - 1 {
        assert forall|j: int| 0 <= j < n - 1 implies slot_elems(su, j) == slot_elems(s, j) by {
            assert(su[j] == s[j]);
        }
        lemma_roots_upto_congruent(su, s, n - 1);
        assert(slot_elems(su, n - 1) == opt_elems(x));
    } else {
        lemma_roots_upto_update(s, n - 1, k, x);
        assert(slot_elems(su, n - 1) == slot_elems(s, n - 1));
    }
    assert forall|v: i32|
        roots_elems_upto(su, n).add(slot_elems(s, k)).count(v) == roots_elems_upto(s, n).add(
            opt_elems(x),
        ).count(v) by {
        assert(roots_elems_upto(su, n).count(v) == roots_elems_upto(su, n - 1).count(v)
            + slot_elems(su, n - 1).count(v));
        assert(roots_elems_upto(s, n).count(v) == roots_elems_upto(s, n - 1).count(v) + slot_elems(
            s,
            n - 1,
        ).count(v));
        if k < n - 1 {
            assert(roots_elems_upto(su, n - 1).add(slot_elems(s, k)).count(v) == roots_elems_upto(
                s,
                n - 1,
            ).add(opt_elems(x)).count(v));
            assert(roots_elems_upto(su, n - 1).count(v) + slot_elems(s, k).count(v)
                == roots_elems_upto(s, n - 1).count(v) + opt_elems(x).count(v));
        }
    }
    assert(roots_elems_upto(su, n).add(slot_elems(s, k)) =~= roots_elems_upto(s, n).add(
        opt_elems(x),
    ));
}

/// A root sequence that wraps a subtree sequence slot for slot holds the
/// same values.
proof fn lemma_child_roots_elems(
    built: Seq<Option<Rc<BinomialTree>>>,
    children: Seq<Rc<BinomialTree>>,
    n: int,
    bound: int,
)
    requires
        n <= built.len(),
        forall|k: int| 0 <= k < n ==> #[trigger] built[k] == Some(children[k]),
        forall|k: int| 0 <= k < n ==> (#[trigger] children[k]).order < bound,
    ensures
        roots_elems_upto(built, n) == prefix_elems(children, n, bound),
    decreases n,
{
    if n > 0 {
        lemma_child_roots_elems(built, children, n - 1, bound);
        assert(slot_elems(built, n - 1) == tree_elems(tree_at(children, n - 1)));
        assert(roots_elems_upto(built, n) =~= prefix_elems(children, n, bound));
    }
}

/// Merges `other` into `heap`: afterwards `heap` holds everything both
/// forests held, and its count is the two counts' sum.  `other` is read
/// only; its values are shared into the new structure by reference.  On
/// allocation failure nothing is changed.
pub fn binomial_heap_merge<F: Fn(BinomialHeapValue, BinomialHeapValue) -> i32>(
    heap: &mut BinomialHeap<F>,
    other: &BinomialHeap<F>,
) -> (r: i32)
    requires
        old(heap).wf(),
        other.wf_for(old(heap).ord@),
        old(heap).num_values + other.num_values <= u64::MAX,
    ensures
        r == 0 || r == 1,
        final (heap).heap_type == old(heap).heap_type,
        final (heap).compare_func == old(heap).compare_func,
        final (heap).ord == old(heap).ord,
        final (heap).alloc_limit == old(heap).alloc_limit,
        r == 1 ==> final (heap).wf() && final (heap).elems() == old(heap).elems().add(other.elems())
            && final (heap).num_values == old(heap).num_values + other.num_values,
        r == 0 ==> final (heap).roots@ == old(heap).roots@ && final (heap).num_values == old(
            heap,
        ).num_values && old(heap).alloc_limit is Some,
        old(heap).alloc_limit is None ==> r == 1,
{
    proof {
        lemma_roots_len_bound(heap.roots@, heap.ord@);
        lemma_roots_len_bound(other.roots@, heap.ord@);
    }
    let r = merge_roots(heap, &other.roots, 0);
    if r == 1 {
        heap.num_values = heap.num_values + other.num_values;
    }
    r
}

/// Inserts one value: wraps it as an order-0 tree and merges that singleton
/// forest in.  On allocation failure the forest is unchanged and the value
/// is discarded.
pub fn binomial_heap_insert<F: Fn(BinomialHeapValue, BinomialHeapValue) -> i32>(
    heap: &mut BinomialHeap<F>,
    value: BinomialHeapValue,
) -> (r: i32)
    requires
        old(heap).wf(),
        old(heap).num_values < u64::MAX,
    ensures
        r == 0 || r == 1,
        final (heap).heap_type == old(heap).heap_type,
        final (heap).compare_func == old(heap).compare_func,
        final (heap).ord == old(heap).ord,
        final (heap).alloc_limit == old(heap).alloc_limit,
        r == 1 ==> final (heap).wf() && final (heap).elems() == old(heap).elems().insert(value.0)
            && final (heap).num_values == old(heap).num_values + 1,
        r == 0 ==> final (heap).roots@ == old(heap).roots@ && final (heap).num_values == old(
            heap,
        ).num_values && old(heap).alloc_limit is Some,
        old(heap).alloc_limit is None ==> r == 1,
{
    // The transient order-0 node is one allocation.
    match heap.alloc_limit {
        Some(l) => {
            if l < 1 {
                return 0;
            }
        },
        None => {},
    }
    let node = Rc::new(BinomialTree { value, order: 0, subtrees: Vec::new() });
    let single: Vec<Option<Rc<BinomialTree>>> = vec![Some(node)];
    proof {
        let t = slot_tree(single@, 0);
        assert(t.order == 0 && t.value == value && t.subtrees@.len() == 0);
        assert(tree_wf(t));
        assert(tree_ordered(t, heap.ord@));
        assert(tree_elems(t) =~= Multiset::<i32>::empty().insert(value.0));
        lemma_roots_len_bound(heap.roots@, heap.ord@);
        assert(single@.len() == 1);
        assert(slot_elems(single@, 0) == tree_elems(t));
        assert(roots_elems_upto(single@, 1) == roots_elems_upto(single@, 0).add(
            slot_elems(single@, 0),
        ));
        assert(roots_elems_upto(single@, 1) =~= Multiset::<i32>::empty().insert(value.0));
    }
    let r = merge_roots(heap, &single, 1);
    if r == 1 {
        heap.num_values = heap.num_values + 1;
        proof {
            assert(heap.elems() =~= old(heap).elems().insert(value.0));
        }
    }
    r
}

/// Extracts the extremal value: picks the occupied root whose value comes
/// first in the oriented order (ties to the lowest order), detaches it and
/// merges its subtrees back in.  An empty forest reports `Empty`; an
/// allocation failure during the re-merge restores the forest exactly and
/// reports `Failure`.
pub fn binomial_heap_pop<F: Fn(BinomialHeapValue, BinomialHeapValue) -> i32>(
    heap: &mut BinomialHeap<F>,
) -> (r: BinomialHeapPopResult)
    requires
        old(heap).wf(),
    ensures
        final (heap).heap_type == old(heap).heap_type,
        final (heap).compare_func == old(heap).compare_func,
        final (heap).ord == old(heap).ord,
        final (heap).alloc_limit == old(heap).alloc_limit,
        r is Empty <==> old(heap).num_values == 0,
        r is Empty ==> final (heap).roots@ == old(heap).roots@ && final (heap).num_values == 0,
        r matches BinomialHeapPopResult::Value(v) ==> final (heap).wf() && old(
            heap,
        ).elems().count(v.0) > 0 && final (
            heap
        ).elems() == old(heap).elems().remove(v.0) && final (heap).num_values == old(
            heap,
        ).num_values - 1 && forall|x: i32|
            old(heap).elems().count(x) > 0 ==> heap_le(old(heap).ord@, v.0, x),
        r is Failure ==> final (heap).roots@ == old(heap).roots@ && final (heap).num_values == old(
            heap,
        ).num_values && old(heap).alloc_limit is Some,
        old(heap).alloc_limit is None ==> !(r is Failure),
{
    let ghost leq = heap.ord@;
    let ghost s0 = heap.roots@;
    if heap.num_values == 0 {
        return BinomialHeapPopResult::Empty;
    }
    // Find the occupied root whose value comes first.
    let mut least_index: usize = 0;
    let mut best = BinomialHeapValue(0);
    let mut found = false;
    let mut i: usize = 0;
    while i < heap.roots.len()
        invariant
            old(heap).wf(),
            heap == old(heap),
            leq == heap.ord@,
            s0 == heap.roots@,
            i <= s0.len(),
            !found ==> forall|k: int| 0 <= k < i ==> !(#[trigger] s0[k] is Some),
            found ==> least_index < i && s0[least_index as int] is Some && best == slot_tree(
                s0,
                least_index as int,
            ).value,
            found ==> forall|k: int|
                0 <= k < i && #[trigger] s0[k] is Some ==> heap_le(
                    leq,
                    best.0,
                    slot_tree(s0, k).value.0,
                ),
        decreases s0.len() - i,
    {
        let mut take_it = false;
        let mut cur = BinomialHeapValue(0);
        match &heap.roots[i] {
            Some(t) => {
                cur = t.value;
                if !found {
                    take_it = true;
                } else {
                    let c = binomial_heap_cmp(heap, cur, best);
                    if c < 0 {
                        take_it = true;
                    }
                }
            },
            None => {},
        }
        if take_it {
            least_index = i;
            best = cur;
            found = true;
        }
        i += 1;
    }
    proof {
        if !found {
            lemma_roots_all_none(s0, s0.len() as int);
            assert(old(heap).elems().len() == 0);
            assert(false);
        }
        // The chosen root's value comes first among everything held.
        assert forall|x: i32| old(heap).elems().count(x) > 0 implies heap_le(leq, best.0, x) by {
            lemma_roots_member(s0, s0.len() as int, x);
            let k = choose|k: int|
                0 <= k < s0.len() && (#[trigger] slot_elems(s0, k)).count(x) > 0;
            lemma_top_le_all(slot_tree(s0, k), leq);
        }
    }
    let least_tree: Rc<BinomialTree> = match &heap.roots[least_index] {
        Some(t) => t.clone(),
        None => {
            proof {
                assert(false);
            }
            return BinomialHeapPopResult::Failure;
        },
    };
    let order = least_tree.order;
    proof {
        lemma_roots_len_bound(s0, leq);
        assert(order == least_index);
    }
    // Detach the chosen root, then hand its subtrees back as a transient
    // forest to merge in; the subtrees are reused by reference.
    heap.roots.set(least_index, None);
    let mut child_roots: Vec<Option<Rc<BinomialTree>>> = Vec::new();
    let mut j: usize = 0;
    while j < order
        invariant
            tree_wf(**(&least_tree)),
            tree_ordered(**(&least_tree), leq),
            order == least_tree.order,
            least_tree.subtrees@.len() == order,
            j <= order,
            child_roots@.len() == j,
            forall|k: int|
                0 <= k < j ==> #[trigger] child_roots@[k] == Some(least_tree.subtrees@[k]),
        decreases order - j,
    {
        child_roots.push(Some(least_tree.subtrees[j].clone()));
        j += 1;
    }
    proof {
        let lt = **(&least_tree);
        assert forall|k: int| 0 <= k < order implies match #[trigger] child_roots@[k] {
            Some(t) => t.order == k && tree_wf(*t) && tree_ordered(*t, leq),
            None => true,
        } by {
            assert(child_roots@[k] == Some(lt.subtrees@[k]));
            assert(tree_at(lt.subtrees@, k).order == k);
        }
        assert(roots_ok(child_roots@, leq));
        lemma_child_roots_elems(child_roots@, lt.subtrees@, order as int, order as int);
        assert(roots_ok(heap.roots@, leq));
    }
    let ghost detached = heap.roots@;
    let r = merge_roots(heap, &child_roots, 0);
    if r == 1 {
        proof {
            let lt = **(&least_tree);
            let v = lt.value.0;
            // What is held now is what was held before, less one copy of
            // the extracted value.
            lemma_roots_upto_update(s0, s0.len() as int, least_index as int, None);
            assert(slot_elems(s0, least_index as int) == tree_elems(lt));
            assert(tree_elems(lt) == prefix_elems(
                lt.subtrees@,
                lt.subtrees@.len() as int,
                lt.order as int,
            ).insert(v));
            assert(detached == s0.update(least_index as int, None));
            assert(roots_elems_upto(detached, s0.len() as int).add(tree_elems(lt))
                == roots_elems_upto(s0, s0.len() as int).add(Multiset::<i32>::empty()));
            assert(heap.elems() == roots_elems_upto(detached, detached.len() as int).add(
                roots_elems_upto(child_roots@, child_roots@.len() as int),
            ));
            assert(roots_elems_upto(child_roots@, child_roots@.len() as int) == prefix_elems(
                lt.subtrees@,
                lt.order as int,
                lt.order as int,
            ));
            let pe = prefix_elems(lt.subtrees@, lt.order as int, lt.order as int);
            let det = roots_elems_upto(detached, s0.len() as int);
            let whole = roots_elems_upto(s0, s0.len() as int);
            assert(det.add(tree_elems(lt)) == whole.add(Multiset::<i32>::empty()));
            assert forall|x: i32| det.count(x) + tree_elems(lt).count(x) == whole.count(x) by {
                assert(det.add(tree_elems(lt)).count(x) == whole.add(
                    Multiset::<i32>::empty(),
                ).count(x));
            }
            assert(tree_elems(lt).count(v) >= 1);
            assert(old(heap).elems() == whole);
            assert(old(heap).elems().count(v) >= 1);
            assert forall|x: i32|
                heap.elems().count(x) == old(heap).elems().remove(v).count(x) by {
                assert(heap.elems().count(x) == det.count(x) + pe.count(x));
                assert(det.count(x) + tree_elems(lt).count(x) == whole.count(x));
                assert(tree_elems(lt).count(x) == pe.count(x) + (if x == v {
                    1nat
                } else {
                    0nat
                }));
            }
            assert(heap.elems() =~= old(heap).elems().remove(v));
        }
        heap.num_values = heap.num_values - 1;
        BinomialHeapPopResult::Value(least_tree.value)
    } else {
        heap.roots.set(least_index, Some(least_tree));
        proof {
            assert(heap.roots@ =~= s0);
        }
        BinomialHeapPopResult::Failure
    }
}

/// Law: a forest created empty and grown only by successful inserts
/// counts exactly the inserts made.  `binomial_heap_new` starts the count
/// at zero and each successful `binomial_heap_insert` raises it by one;
/// for any trace of counts shaped that way, the final count equals the
/// number of inserts.
pub proof fn lemma_count_follows_inserts(counts: Seq<u64>)
    requires
        counts.len() > 0,
        counts[0] == 0,
        forall|i: int| 0 < i < counts.len() ==> #[trigger] counts[i] == counts[i - 1] + 1,
    ensures
        counts.last() == counts.len() - 1,
    decreases counts.len(),
{
    if counts.len() > 1 {
        let front = counts.drop_last();
        assert(front[0] == counts[0]);
        assert forall|i: int| 0 < i < front.len() implies #[trigger] front[i] == front[i - 1]
            + 1 by {
            assert(front[i] == counts[i] && front[i - 1] == counts[i - 1]);
        }
        lemma_count_follows_inserts(front);
        assert(counts.last() == counts[counts.len() - 1]);
        assert(front.last() == counts[counts.len() - 2]);
    }
}

/// `vs` is a drain of `m`: each value in turn is one that `m` still holds
/// and that comes no later than anything else `m` still holds — exactly
/// what `binomial_heap_pop` ensures of each successive result — and the
/// drain runs until nothing is left.
pub open spec fn drains(leq: spec_fn(i32, i32) -> bool, m: Multiset<i32>, vs: Seq<i32>) -> bool
    decreases vs.len(),
{
    if vs.len() == 0 {
        m == Multiset::<i32>::empty()
    } else {
        &&& m.count(vs[0]) > 0
        &&& forall|x: i32| m.count(x) > 0 ==> heap_le(leq, vs[0], x)
        &&& drains(leq, m.remove(vs[0]), vs.drop_first())
    }
}

/// Law: repeatedly popping a forest hands its values out in oriented order
/// — non-decreasing under the comparator in min mode, non-increasing in
/// max mode — and hands out exactly the multiset the forest held.
pub proof fn lemma_drain_sorted(leq: spec_fn(i32, i32) -> bool, m: Multiset<i32>, vs: Seq<i32>)
    requires
        leq_total(leq),
        drains(leq, m, vs),
    ensures
        forall|i: int, j: int| 0 <= i <= j < vs.len() ==> heap_le(leq, vs[i], vs[j]),
        vs.to_multiset() == m,
    decreases vs.len(),
{
    broadcast use vstd::seq_lib::group_to_multiset_ensures;

    if vs.len() == 0 {
        assert(vs.to_multiset() =~= m);
    } else {
        let v0 = vs[0];
        let rest = vs.drop_first();
        lemma_drain_sorted(leq, m.remove(v0), rest);
        assert(vs.remove(0) =~= rest);
        assert(vs.remove(0).to_multiset() =~= vs.to_multiset().remove(v0));
        assert(vs.contains(v0));
        assert(vs.to_multiset().count(v0) > 0);
        assert forall|x: i32| vs.to_multiset().count(x) == m.count(x) by {
            assert(vs.to_multiset().remove(v0).count(x) == rest.to_multiset().count(x));
            assert(rest.to_multiset().count(x) == m.remove(v0).count(x));
        }
        assert(vs.to_multiset() =~= m);
        assert forall|i: int, j: int| 0 <= i <= j < vs.len() implies heap_le(
            leq,
            vs[i],
            vs[j],
        ) by {
            if i == 0 {
                if j > 0 {
                    assert(rest[j - 1] == vs[j]);
                    assert(rest.contains(vs[j]));
                    assert(rest.to_multiset().count(vs[j]) > 0);
                    assert(m.remove(v0).count(vs[j]) > 0);
                }
            } else {
                assert(rest[i - 1] == vs[i] && rest[j - 1] == vs[j]);
            }
        }
    }
}

/// The total weight `sum of 2^k` over the occupied root slots among the
/// first `n` of `s`.
pub open spec fn roots_pow_sum(s: Seq<Option<Rc<BinomialTree>>>, n: int) -> nat
    decreases n,
{
    if n <= 0 {
        0
    } else {
        roots_pow_sum(s, n - 1) + if s[n - 1] is Some {
            pow2(slot_tree(s, n - 1).order as nat)
        } else {
            0
        }
    }
}

proof fn lemma_upto_len_is_pow_sum(
    s: Seq<Option<Rc<BinomialTree>>>,
    n: int,
    leq: spec_fn(i32, i32) -> bool,
)
    requires
        n <= s.len(),
        roots_ok(s, leq),
    ensures
        roots_elems_upto(s, n).len() == roots_pow_sum(s, n),
    decreases n,
{
    if n > 0 {
        lemma_upto_len_is_pow_sum(s, n - 1, leq);
        if s[n - 1] is Some {
            lemma_tree_size(slot_tree(s, n - 1));
        }
    }
}

/// Law: after every successful mutating call the forest satisfies its
/// structural invariant — at most one occupied root per order (the root in
/// slot `k` is the one tree of order `k`), and the count equals the sum of
/// `2^order` over the occupied roots.
pub proof fn lemma_structural_invariant<F: Fn(BinomialHeapValue, BinomialHeapValue) -> i32>(
    h: BinomialHeap<F>,
)
    requires
        h.wf(),
    ensures
        forall|k: int|
            0 <= k < h.roots@.len() && #[trigger] h.roots@[k] is Some ==> slot_tree(
                h.roots@,
                k,
            ).order == k,
        h.num_values == roots_pow_sum(h.roots@, h.roots@.len() as int),
{
    lemma_upto_len_is_pow_sum(h.roots@, h.roots@.len() as int, h.ord@);
}

/// Destroys the forest, releasing every root; shared subtrees survive for
/// as long as other forests still hold references to them.
pub fn binomial_heap_free<F: Fn(BinomialHeapValue, BinomialHeapValue) -> i32>(
    heap: BinomialHeap<F>,
) {
    let _ = heap;
}

} // verus!
