//! A trie keyed by byte strings: one node per key prefix, each holding an
//! optional value, up to 256 children, and a count of the keys stored in
//! its subtree.

use vstd::prelude::*;
use vstd::string::StringSliceAdditionalSpecFns;

verus! {

/// One trie node: the value stored at this prefix, the number of keys in
/// this subtree, and one optional child per possible next byte.
pub struct TrieNode<T> {
    pub data: Option<T>,
    pub use_count: u32,
    pub next: Vec<Option<Box<TrieNode<T>>>>,
}

/// A trie: the node of the empty prefix, if any key was ever stored.
pub struct Trie<T> {
    pub root_node: Option<Box<TrieNode<T>>>,
    /// When `Some(n)`, an insert may create at most `n` new nodes; used to
    /// exercise the failure paths.
    pub alloc_limit: Option<u32>,
}

/// The node reached from `node` by walking the bytes of `key`.
pub open spec fn trie_node_at<T>(node: Option<Box<TrieNode<T>>>, key: Seq<u8>) -> Option<
    Box<TrieNode<T>>,
>
    decreases key.len(),
{
    match node {
        None => None,
        Some(n) => if key.len() == 0 {
            Some(n)
        } else if (key[0] as int) < n.next@.len() {
            trie_node_at(n.next@[key[0] as int], key.drop_first())
        } else {
            None
        },
    }
}

/// The value stored under `key`, if any.
pub open spec fn trie_get<T>(node: Option<Box<TrieNode<T>>>, key: Seq<u8>) -> Option<T> {
    match trie_node_at(node, key) {
        Some(n) => n.data,
        None => None,
    }
}

/// The number of keys the root believes it holds.
pub open spec fn trie_count<T>(node: Option<Box<TrieNode<T>>>) -> u32 {
    match node {
        Some(n) => n.use_count,
        None => 0,
    }
}

/// Creates an empty trie.
pub fn trie_new<T>() -> (r: Option<Trie<T>>)
    ensures
        r matches Some(t) && t.root_node is None && t.alloc_limit is None && forall|k: Seq<u8>|
            trie_get(t.root_node, k) is None,
{
    Some(Trie { root_node: None, alloc_limit: None })
}

/// Caps the number of nodes the next insert may create, or lifts the cap.
pub fn trie_set_alloc_limit<T>(trie: &mut Trie<T>, limit: Option<u32>)
    ensures
        final (trie).alloc_limit == limit,
        final (trie).root_node == old(trie).root_node,
{
    trie.alloc_limit = limit;
}

/// A fresh node with no value, no keys and no children.
fn trie_new_node<T>() -> (r: Box<TrieNode<T>>)
    ensures
        r.data is None,
        r.use_count == 0,
        r.next@.len() == 256,
        forall|i: int| 0 <= i < 256 ==> (#[trigger] r.next@[i]) is None,
{
    let mut next: Vec<Option<Box<TrieNode<T>>>> = Vec::new();
    let mut i: usize = 0;
    while i < 256
        invariant
            i <= 256,
            next@.len() == i,
            forall|k: int| 0 <= k < i ==> (#[trigger] next@[k]) is None,
        decreases 256 - i,
    {
        next.push(None);
        i = i + 1;
    }
    Box::new(TrieNode { data: None, use_count: 0, next })
}

/// How many nodes of the path for `key[pos..]` already exist below `node`.
fn existing_path_len<T>(node: &Option<Box<TrieNode<T>>>, key: &[u8], pos: usize) -> (r: usize)
    requires
        pos <= key@.len(),
        key@.len() < usize::MAX,
    ensures
        r <= key@.len() - pos + 1,
    decreases key@.len() - pos,
{
    match node {
        None => 0,
        Some(n) => {
            if pos >= key.len() {
                1
            } else {
                let b = key[pos] as usize;
                if b < n.next.len() {
                    let sub = existing_path_len(&n.next[b], key, pos + 1);
                    1 + sub
                } else {
                    1
                }
            }
        },
    }
}

/// Stores `value` under `key[pos..]` below `node`, creating the missing
/// part of the path; reports whether the key was fresh.
fn trie_insert_node<T>(node: &mut Option<Box<TrieNode<T>>>, key: &[u8], pos: usize, value: T) -> (
    fresh: bool)
    requires
        pos <= key@.len(),
    ensures
        fresh <==> trie_get(*old(node), key@.skip(pos as int)) is None,
        trie_get(*final (node), key@.skip(pos as int)) matches Some(v) && v == value,
        forall|k: Seq<u8>|
            k != key@.skip(pos as int) ==> #[trigger] trie_get(*final (node), k) == trie_get(
                *old(node),
                k,
            ),
        trie_count(*final (node)) == trie_count(*old(node)) + if fresh && trie_count(*old(node))
            < u32::MAX {
            1int
        } else {
            0int
        },
    decreases key@.len() - pos,
{
    let ghost suffix = key@.skip(pos as int);
    let mut n: Box<TrieNode<T>> = match node.take() {
        Some(n) => n,
        None => trie_new_node(),
    };
    if pos >= key.len() {
        let fresh = n.data.is_none();
        n.data = Some(value);
        if fresh && n.use_count < u32::MAX {
            n.use_count = n.use_count + 1;
        }
        *node = Some(n);
        proof {
            assert(suffix =~= Seq::<u8>::empty());
            assert(trie_node_at(*node, suffix) == *node);
            assert forall|k: Seq<u8>| k != suffix implies #[trigger] trie_get(*node, k)
                == trie_get(*old(node), k) by {
                if k.len() == 0 {
                    assert(k =~= suffix);
                } else if *old(node) is Some {
                    let m = old(node)->0;
                    if (k[0] as int) < m.next@.len() {
                        assert(trie_node_at(*node, k) == trie_node_at(
                            m.next@[k[0] as int],
                            k.drop_first(),
                        ));
                    }
                } else {
                    if (k[0] as int) < 256 {
                        assert(node->0.next@[k[0] as int] is None);
                        assert(trie_node_at(
                            node->0.next@[k[0] as int],
                            k.drop_first(),
                        ) is None);
                        assert(trie_node_at(*node, k) is None);
                    }
                }
            }
        }
        fresh
    } else {
        let b = key[pos] as usize;
        let ghost pre_node = *n;
        // A node created to stand in for a missing link keeps every byte
        // reachable; an existing narrow node is widened the same way.
        while n.next.len() < 256
            invariant
                n.data == pre_node.data,
                n.use_count == pre_node.use_count,
                n.next@.len() >= pre_node.next@.len(),
                forall|j: int|
                    0 <= j < pre_node.next@.len() ==> #[trigger] n.next@[j]
                        == pre_node.next@[j],
                forall|j: int|
                    pre_node.next@.len() <= j < n.next@.len() ==> #[trigger] n.next@[j] is None,
            decreases 256 - n.next@.len(),
        {
            n.next.push(None);
        }
        let mut child: Option<Box<TrieNode<T>>> = n.next[b].take();
        let ghost child0 = child;
        let fresh = trie_insert_node(&mut child, key, pos + 1, value);
        n.next.set(b, child);
        if fresh && n.use_count < u32::MAX {
            n.use_count = n.use_count + 1;
        }
        *node = Some(n);
        proof {
            let nn = node->0;
            assert(suffix.len() > 0 && suffix[0] == key@[pos as int]);
            assert(suffix.drop_first() =~= key@.skip(pos + 1));
            assert(nn.next@[b as int] == child);
            assert(trie_node_at(*node, suffix) == trie_node_at(child, key@.skip(pos + 1)));
            if *old(node) is Some {
                let m = old(node)->0;
                if (b as int) < m.next@.len() {
                    assert(child0 == m.next@[b as int]);
                    assert(trie_node_at(*old(node), suffix) == trie_node_at(
                        child0,
                        key@.skip(pos + 1),
                    ));
                } else {
                    assert(child0 is None);
                    assert(trie_node_at(*old(node), suffix) is None);
                    assert(trie_node_at(child0, key@.skip(pos + 1)) is None);
                }
            } else {
                assert(child0 is None);
                assert(trie_node_at(child0, key@.skip(pos + 1)) is None);
            }
            assert(trie_get(*old(node), suffix) == trie_get(child0, key@.skip(pos + 1)));
            assert forall|k: Seq<u8>| k != suffix implies #[trigger] trie_get(*node, k)
                == trie_get(*old(node), k) by {
                if k.len() == 0 {
                    if *old(node) is None {
                        assert(trie_node_at(*node, k) == *node);
                    }
                } else {
                    let c = k[0] as int;
                    if c == b {
                        assert(k.drop_first() != key@.skip(pos + 1)) by {
                            if k.drop_first() == key@.skip(pos + 1) {
                                assert(k[0] == key@[pos as int]);
                                assert(k =~= seq![k[0]].add(k.drop_first()));
                                assert(suffix =~= seq![suffix[0]].add(suffix.drop_first()));
                                assert(k[0] == suffix[0]);
                                assert(k.drop_first() == suffix.drop_first());
                                assert(seq![k[0]].add(k.drop_first()) == seq![
                                    suffix[0],
                                ].add(suffix.drop_first()));
                                assert(k == suffix);
                            }
                        }
                        assert(trie_node_at(*node, k) == trie_node_at(child, k.drop_first()));
                        assert(trie_get(child, k.drop_first()) == trie_get(
                            child0,
                            k.drop_first(),
                        ));
                        if *old(node) is Some {
                            assert(trie_node_at(*old(node), k) == trie_node_at(
                                child0,
                                k.drop_first(),
                            ));
                        } else {
                            assert(child0 is None);
                            assert(trie_node_at(*old(node), k) is None);
                        }
                    } else {
                        if *old(node) is Some {
                            let m = old(node)->0;
                            assert(c < nn.next@.len());
                            if c < m.next@.len() {
                                assert(nn.next@[c] == m.next@[c]);
                            } else {
                                assert(nn.next@[c] is None);
                                assert(trie_node_at(*node, k) is None);
                            }
                        } else {
                            assert(nn.next@[c] is None);
                            assert(trie_node_at(*node, k) is None);
                        }
                    }
                }
            }
        }
        fresh
    }
}

/// Stores `value` under the bytes of `key`; a missing path is created, one
/// node per missing link, unless the allocation limit forbids it.  Reports
/// 1 on success and 0 when nothing was stored; on failure the trie is
/// unchanged.
pub fn trie_insert_binary<T>(
    trie: &mut Trie<T>,
    key: &[u8],
    key_length: usize,
    value: Option<T>,
) -> (r: i32)
    requires
        key_length <= key@.len(),
        key@.len() < usize::MAX,
        trie_count(old(trie).root_node) < u32::MAX,
    ensures
        r == 0 || r == 1,
        final (trie).alloc_limit == old(trie).alloc_limit,
        value is None ==> r == 0 && final (trie).root_node == old(trie).root_node,
        r == 0 ==> final (trie).root_node == old(trie).root_node,
        r == 1 ==> (trie_get(final (trie).root_node, key@.subrange(0, key_length as int)) matches Some(
            v,
        ) && v == value.unwrap()),
        r == 1 ==> forall|k: Seq<u8>|
            k != key@.subrange(0, key_length as int) ==> #[trigger] trie_get(
                final (trie).root_node,
                k,
            ) == trie_get(old(trie).root_node, k),
        r == 1 ==> trie_count(final (trie).root_node) == trie_count(old(trie).root_node) + if trie_get(
            old(trie).root_node,
            key@.subrange(0, key_length as int),
        ) is None {
            1int
        } else {
            0int
        },
        old(trie).alloc_limit is None && value is Some ==> r == 1,
{
    let v = match value {
        Some(v) => v,
        None => {
            return 0;
        },
    };
    let key_slice = &key[0..key_length];
    match trie.alloc_limit {
        Some(l) => {
            let have = existing_path_len(&trie.root_node, key_slice, 0);
            let needed = key_length + 1 - have;
            if needed > l as usize {
                return 0;
            }
        },
        None => {},
    }
    let fresh = trie_insert_node(&mut trie.root_node, key_slice, 0, v);
    proof {
        assert(key_slice@ =~= key@.subrange(0, key_length as int));
        assert(key_slice@.skip(0) =~= key_slice@);
        let _ = fresh;
    }
    1
}

/// Stores `value` under the bytes of `key`.
pub fn trie_insert<T>(trie: &mut Trie<T>, key: &str, value: T) -> (r: bool)
    requires
        key.spec_bytes().len() < usize::MAX,
        trie_count(old(trie).root_node) < u32::MAX,
    ensures
        final (trie).alloc_limit == old(trie).alloc_limit,
        !r ==> final (trie).root_node == old(trie).root_node,
        r ==> (trie_get(final (trie).root_node, key.spec_bytes()) matches Some(v) && v == value),
        r ==> forall|k: Seq<u8>|
            k != key.spec_bytes() ==> #[trigger] trie_get(final (trie).root_node, k) == trie_get(
                old(trie).root_node,
                k,
            ),
        r ==> trie_count(final (trie).root_node) == trie_count(old(trie).root_node) + if trie_get(
            old(trie).root_node,
            key.spec_bytes(),
        ) is None {
            1int
        } else {
            0int
        },
        old(trie).alloc_limit is None ==> r,
{
    let bytes = key.as_bytes();
    let len = bytes.len();
    let r = trie_insert_binary(trie, bytes, len, Some(value));
    proof {
        assert(bytes@.subrange(0, len as int) =~= key.spec_bytes());
    }
    r == 1
}

/// The number of keys held.
pub fn trie_num_entries<T>(trie: &Trie<T>) -> (r: u32)
    ensures
        r == trie_count(trie.root_node),
{
    match &trie.root_node {
        Some(n) => n.use_count,
        None => 0,
    }
}

/// The node of the byte path `key[..key_length]`, while one exists.
pub fn trie_find_end_binary<'a, T>(trie: &'a Trie<T>, key: &[u8], key_length: usize) -> (r: Option<
    &'a TrieNode<T>,
>)
    requires
        key_length <= key@.len(),
    ensures
        match trie_node_at(trie.root_node, key@.subrange(0, key_length as int)) {
            Some(b) => r matches Some(n) && *n == *b,
            None => r is None,
        },
{
    let mut node: &Option<Box<TrieNode<T>>> = &trie.root_node;
    let mut j: usize = 0;
    let ghost whole = key@.subrange(0, key_length as int);
    while j < key_length
        invariant
            key_length <= key@.len(),
            j <= key_length,
            whole == key@.subrange(0, key_length as int),
            trie_node_at(trie.root_node, whole) == trie_node_at(
                *node,
                key@.subrange(j as int, key_length as int),
            ),
        decreases key_length - j,
    {
        let ghost before = key@.subrange(j as int, key_length as int);
        match node {
            None => {
                proof {
                    assert(trie_node_at(*node, before) is None);
                }
                return None;
            },
            Some(n) => {
                let b = key[j] as usize;
                proof {
                    assert(before.len() > 0 && before[0] == key@[j as int]);
                    assert(before.drop_first() =~= key@.subrange(j + 1, key_length as int));
                }
                if b < n.next.len() {
                    node = &n.next[b];
                } else {
                    proof {
                        assert(trie_node_at(*node, before) is None);
                    }
                    return None;
                }
            },
        }
        j = j + 1;
    }
    proof {
        assert(key@.subrange(key_length as int, key_length as int) =~= Seq::<u8>::empty());
    }
    match node {
        Some(n) => Some(n),
        None => None,
    }
}

/// The node of the string's byte path, while one exists.
pub fn trie_find_end<'a, T>(trie: &'a Trie<T>, key: &str) -> (r: Option<&'a TrieNode<T>>)
    ensures
        match trie_node_at(trie.root_node, key.spec_bytes()) {
            Some(b) => r matches Some(n) && *n == *b,
            None => r is None,
        },
{
    let bytes = key.as_bytes();
    let len = bytes.len();
    let r = trie_find_end_binary(trie, bytes, len);
    proof {
        assert(bytes@.subrange(0, len as int) =~= key.spec_bytes());
    }
    r
}

/// The value under the byte path `key[..key_length]`, while one is stored.
pub fn trie_lookup_binary<'a, T>(trie: &'a Trie<T>, key: &[u8], key_length: usize) -> (r: Option<
    &'a T,
>)
    requires
        key_length <= key@.len(),
    ensures
        match trie_get(trie.root_node, key@.subrange(0, key_length as int)) {
            Some(v) => r matches Some(rv) && *rv == v,
            None => r is None,
        },
{
    match trie_find_end_binary(trie, key, key_length) {
        Some(n) => {
            match &n.data {
                Some(v) => Some(v),
                None => None,
            }
        },
        None => None,
    }
}

/// The value under the string's byte path, while one is stored.
pub fn trie_lookup<'a, T>(trie: &'a Trie<T>, key: &str) -> (r: Option<&'a T>)
    ensures
        match trie_get(trie.root_node, key.spec_bytes()) {
            Some(v) => r matches Some(rv) && *rv == v,
            None => r is None,
        },
{
    match trie_find_end(trie, key) {
        Some(n) => {
            match &n.data {
                Some(v) => Some(v),
                None => None,
            }
        },
        None => None,
    }
}

/// Takes the value under `key[pos..]` below `node`, giving the counts on
/// the path back; emptied nodes stay in place, unobservable through the
/// interface.  Reports whether a value was removed.
fn trie_remove_node<T>(node: &mut Option<Box<TrieNode<T>>>, key: &[u8], pos: usize) -> (removed:
    bool)
    requires
        pos <= key@.len(),
    ensures
        removed <==> trie_get(*old(node), key@.skip(pos as int)) is Some,
        !removed ==> trie_count(*final (node)) == trie_count(*old(node)) && forall|k: Seq<u8>|
            #[trigger] trie_get(*final (node), k) == trie_get(*old(node), k),
        removed ==> trie_get(*final (node), key@.skip(pos as int)) is None,
        removed ==> forall|k: Seq<u8>|
            k != key@.skip(pos as int) ==> #[trigger] trie_get(*final (node), k) == trie_get(
                *old(node),
                k,
            ),
        removed ==> trie_count(*final (node)) == if trie_count(*old(node)) > 0 {
            trie_count(*old(node)) - 1
        } else {
            0
        },
    decreases key@.len() - pos,
{
    let ghost suffix = key@.skip(pos as int);
    let mut n: Box<TrieNode<T>> = match node.take() {
        Some(n) => n,
        None => {
            return false;
        },
    };
    if pos >= key.len() {
        if n.data.is_none() {
            *node = Some(n);
            proof {
                assert(*node == *old(node));
            }
            return false;
        }
        n.data = None;
        if n.use_count > 0 {
            n.use_count = n.use_count - 1;
        }
        *node = Some(n);
        proof {
            assert(suffix =~= Seq::<u8>::empty());
            assert(trie_node_at(*node, suffix) == *node);
            assert forall|k: Seq<u8>| k != suffix implies #[trigger] trie_get(*node, k)
                == trie_get(*old(node), k) by {
                if k.len() == 0 {
                    assert(k =~= suffix);
                } else {
                    let m = old(node)->0;
                    if (k[0] as int) < m.next@.len() {
                        assert(trie_node_at(*node, k) == trie_node_at(
                            m.next@[k[0] as int],
                            k.drop_first(),
                        ));
                    }
                }
            }
        }
        true
    } else {
        let b = key[pos] as usize;
        if b >= n.next.len() {
            *node = Some(n);
            proof {
                assert(suffix.len() > 0);
                assert(*node == *old(node));
            }
            return false;
        }
        let mut child: Option<Box<TrieNode<T>>> = n.next[b].take();
        let ghost child0 = child;
        let ghost before_take = *old(node)->0;
        let removed = trie_remove_node(&mut child, key, pos + 1);
        n.next.set(b, child);
        if removed {
            if n.use_count > 0 {
                n.use_count = n.use_count - 1;
            }
        }
        *node = Some(n);
        proof {
            assert(suffix.len() > 0 && suffix[0] == key@[pos as int]);
            assert(suffix.drop_first() =~= key@.skip(pos + 1));
            let nn = node->0;
            assert(nn.next@[b as int] == child);
            if !removed {
                assert forall|k: Seq<u8>| true implies #[trigger] trie_get(*node, k) == trie_get(
                    *old(node),
                    k,
                ) by {
                    if k.len() == 0 {
                    } else {
                        let c = k[0] as int;
                        if c == b {
                            assert(trie_node_at(*node, k) == trie_node_at(
                                child,
                                k.drop_first(),
                            ));
                            assert(trie_node_at(*old(node), k) == trie_node_at(
                                child0,
                                k.drop_first(),
                            ));
                            assert(trie_get(child, k.drop_first()) == trie_get(
                                child0,
                                k.drop_first(),
                            ));
                            match trie_node_at(child, k.drop_first()) {
                                Some(x) => {
                                    assert(trie_get(*node, k) == x.data);
                                },
                                None => {},
                            }
                        } else {
                            if c < nn.next@.len() {
                                assert(nn.next@[c] == before_take.next@[c]);
                            }
                        }
                    }
                }
            } else {
                assert(trie_node_at(*node, suffix) == trie_node_at(child, key@.skip(pos + 1)));
                assert forall|k: Seq<u8>| k != suffix implies #[trigger] trie_get(*node, k)
                    == trie_get(*old(node), k) by {
                    if k.len() == 0 {
                    } else {
                        let c = k[0] as int;
                        if c == b {
                            assert(k.drop_first() != key@.skip(pos + 1)) by {
                                if k.drop_first() == key@.skip(pos + 1) {
                                    assert(k[0] == key@[pos as int]);
                                    assert(k =~= seq![k[0]].add(k.drop_first()));
                                    assert(suffix =~= seq![suffix[0]].add(suffix.drop_first()));
                                    assert(k[0] == suffix[0]);
                                    assert(k.drop_first() == suffix.drop_first());
                                    assert(seq![k[0]].add(k.drop_first()) == seq![
                                        suffix[0],
                                    ].add(suffix.drop_first()));
                                    assert(k == suffix);
                                }
                            }
                            assert(trie_node_at(*node, k) == trie_node_at(
                                child,
                                k.drop_first(),
                            ));
                            assert(trie_node_at(*old(node), k) == trie_node_at(
                                child0,
                                k.drop_first(),
                            ));
                            assert(trie_get(child, k.drop_first()) == trie_get(
                                child0,
                                k.drop_first(),
                            ));
                            match trie_node_at(child, k.drop_first()) {
                                Some(x) => {
                                    assert(trie_get(*node, k) == x.data);
                                },
                                None => {},
                            }
                            match trie_node_at(child0, k.drop_first()) {
                                Some(x) => {
                                    assert(trie_get(*old(node), k) == x.data);
                                },
                                None => {},
                            }
                        } else {
                            if c < nn.next@.len() {
                                assert(nn.next@[c] == before_take.next@[c]);
                            }
                        }
                    }
                }
            }
        }
        removed
    }
}

/// Takes the value under the byte path `key[..key_length]`; reports 1
/// exactly when a value was removed.
pub fn trie_remove_binary<T>(trie: &mut Trie<T>, key: &[u8], key_length: usize) -> (r: i32)
    requires
        key_length <= key@.len(),
    ensures
        r == 0 || r == 1,
        final (trie).alloc_limit == old(trie).alloc_limit,
        r == 1 <==> trie_get(old(trie).root_node, key@.subrange(0, key_length as int)) is Some,
        r == 0 ==> trie_count(final (trie).root_node) == trie_count(old(trie).root_node)
            && forall|k: Seq<u8>|
            #[trigger] trie_get(final (trie).root_node, k) == trie_get(old(trie).root_node, k),
        r == 1 ==> trie_get(final (trie).root_node, key@.subrange(0, key_length as int)) is None,
        r == 1 ==> forall|k: Seq<u8>|
            k != key@.subrange(0, key_length as int) ==> #[trigger] trie_get(
                final (trie).root_node,
                k,
            ) == trie_get(old(trie).root_node, k),
        r == 1 ==> trie_count(final (trie).root_node) == if trie_count(old(trie).root_node) > 0 {
            trie_count(old(trie).root_node) - 1
        } else {
            0
        },
{
    let key_slice = &key[0..key_length];
    let removed = trie_remove_node(&mut trie.root_node, key_slice, 0);
    proof {
        assert(key_slice@ =~= key@.subrange(0, key_length as int));
        assert(key_slice@.skip(0) =~= key_slice@);
    }
    if removed {
        1
    } else {
        0
    }
}

/// Takes the value under the string's byte path; reports whether a value
/// was removed.
pub fn trie_remove<T>(trie: &mut Trie<T>, key: &str) -> (r: bool)
    ensures
        final (trie).alloc_limit == old(trie).alloc_limit,
        r <==> trie_get(old(trie).root_node, key.spec_bytes()) is Some,
        !r ==> trie_count(final (trie).root_node) == trie_count(old(trie).root_node) && forall|
            k: Seq<u8>,
        | #[trigger] trie_get(final (trie).root_node, k) == trie_get(old(trie).root_node, k),
        r ==> trie_get(final (trie).root_node, key.spec_bytes()) is None,
        r ==> forall|k: Seq<u8>|
            k != key.spec_bytes() ==> #[trigger] trie_get(final (trie).root_node, k) == trie_get(
                old(trie).root_node,
                k,
            ),
        r ==> trie_count(final (trie).root_node) == if trie_count(old(trie).root_node) > 0 {
            trie_count(old(trie).root_node) - 1
        } else {
            0
        },
{
    let bytes = key.as_bytes();
    let len = bytes.len();
    let r = trie_remove_binary(trie, bytes, len);
    proof {
        assert(bytes@.subrange(0, len as int) =~= key.spec_bytes());
    }
    r == 1
}

/// Undoes an insert of `key`: the key's value, if present, leaves the trie
/// and the counts along its path are given back.
pub fn trie_insert_rollback<T>(trie: &mut Trie<T>, key: &[u8])
    ensures
        final (trie).alloc_limit == old(trie).alloc_limit,
        trie_get(final (trie).root_node, key@) is None,
        forall|k: Seq<u8>|
            k != key@ ==> #[trigger] trie_get(final (trie).root_node, k) == trie_get(
                old(trie).root_node,
                k,
            ),
{
    let len = key.len();
    trie_remove_binary(trie, key, len);
    proof {
        assert(key@.subrange(0, len as int) =~= key@);
    }
}

/// Pushes a node onto an intrusive worklist of nodes awaiting release,
/// linked through their first child slots.
pub fn trie_free_list_push<T>(list: &mut Option<Box<TrieNode<T>>>, node: Box<TrieNode<T>>)
    ensures
        *final (list) matches Some(h) && h.data is None && h.use_count == node.use_count,
{
    let mut node = node;
    node.data = None;
    if node.next.len() == 0 {
        node.next.push(None);
    }
    let rest = list.take();
    node.next.set(0, rest);
    *list = Some(node);
}

/// Pops the most recently pushed node off the worklist.
pub fn trie_free_list_pop<T>(list: &mut Option<Box<TrieNode<T>>>) -> (r: Option<Box<TrieNode<T>>>)
    ensures
        *old(list) is None <==> r is None,
        *old(list) is None ==> *final (list) is None,
        r matches Some(n) ==> n.use_count == (*old(list))->0.use_count,
{
    match list.take() {
        Some(mut result) => {
            if result.next.len() > 0 {
                *list = result.next.remove(0);
                result.next.insert(0, None);
            }
            Some(result)
        },
        None => None,
    }
}

/// Releases the whole trie without recursing: an explicit worklist takes
/// the nodes one by one, each handing its children over before it goes.
pub fn trie_free<T>(trie: Trie<T>) {
    let mut free_list: Option<Box<TrieNode<T>>> = None;
    let mut trie = trie;
    match trie.root_node.take() {
        Some(root) => {
            trie_free_list_push(&mut free_list, root);
        },
        None => {},
    }
    let mut iterations: u64 = 0;
    loop
        invariant
            true,
        decreases u64::MAX - iterations,
    {
        if iterations >= u64::MAX {
            return ;
        }
        iterations = iterations + 1;
        let mut node = match trie_free_list_pop(&mut free_list) {
            Some(n) => n,
            None => {
                return ;
            },
        };
        let mut i: usize = 1;
        while i < node.next.len()
            invariant
                i >= 1,
            decreases node.next@.len() - i,
        {
            match node.next[i].take() {
                Some(child) => {
                    trie_free_list_push(&mut free_list, child);
                },
                None => {},
            }
            i = i + 1;
        }
    }
}

} // verus!
