//! The mutable construction trie: an ordinary tree of nodes, each holding an
//! edge label, an optional value, and label-sorted children. It exists only
//! while keys are inserted; `build` consumes it.
//!
//! The model of a node is the partial map from key suffixes to values,
//! `value_at`, defined by walking the label path.

use vstd::prelude::*;

verus! {

#[derive(Debug)]
pub struct NaiveNode<V> {
    pub label: u8,
    pub value: Option<V>,
    pub children: Vec<NaiveNode<V>>,
}

/// Index of the child of `n` carrying label `c`, if any.
pub open spec fn find_idx<V>(ch: Seq<NaiveNode<V>>, c: u8) -> Option<int> {
    if exists|i: int| 0 <= i < ch.len() && ch[i].label == c {
        Some(choose|i: int| 0 <= i < ch.len() && ch[i].label == c)
    } else {
        None
    }
}

/// The node reached from `n` by following the labels of `k`, if the path exists.
pub open spec fn subnode<V>(n: NaiveNode<V>, k: Seq<u8>) -> Option<NaiveNode<V>>
    decreases k.len(),
{
    if k.len() == 0 {
        Some(n)
    } else {
        match find_idx(n.children@, k[0]) {
            Some(i) => subnode(n.children@[i], k.drop_first()),
            None => None,
        }
    }
}

/// The value stored for suffix `k` below `n`, if any.
pub open spec fn value_at<V>(n: NaiveNode<V>, k: Seq<u8>) -> Option<V> {
    match subnode(n, k) {
        Some(m) => m.value,
        None => None,
    }
}

/// The key-to-value map represented by the subtree below `n`.
pub open spec fn kv_map<V>(n: NaiveNode<V>) -> Map<Seq<u8>, V> {
    Map::new(|k: Seq<u8>| value_at(n, k) is Some, |k: Seq<u8>| value_at(n, k)->0)
}

pub open spec fn kids_sorted<V>(n: NaiveNode<V>) -> bool {
    forall|i: int, j: int|
        0 <= i < j < n.children@.len() ==> n.children@[i].label < n.children@[j].label
}

/// Every node reachable from `n` keeps its children in strictly increasing
/// label order.
pub open spec fn wf_node<V>(n: NaiveNode<V>) -> bool {
    forall|k: Seq<u8>| (#[trigger] subnode(n, k)) is Some ==> kids_sorted(subnode(n, k)->0)
}

/// A node with no children must carry a value; such nodes end key paths.
pub open spec fn node_ok<V>(n: NaiveNode<V>) -> bool {
    n.children@.len() == 0 ==> n.value is Some
}

/// Below `n`, every childless node carries a value: no branch dangles
/// without ending in a key. The node itself is exempt, so an empty root is
/// allowed.
pub open spec fn leafy<V>(n: NaiveNode<V>) -> bool {
    forall|k: Seq<u8>|
        k.len() > 0 && (#[trigger] subnode(n, k)) is Some ==> node_ok(subnode(n, k)->0)
}

/// A children list fit for encoding: strictly increasing labels, every
/// element well-formed and ending its dangling branches in keys.
pub open spec fn list_wf<V>(l: Seq<NaiveNode<V>>) -> bool {
    &&& forall|a: int, b: int| 0 <= a < b < l.len() ==> l[a].label < l[b].label
    &&& forall|a: int|
        0 <= a < l.len() ==> wf_node(#[trigger] l[a]) && node_ok(l[a]) && leafy(l[a])
}

/// Number of nodes of the subtree rooted at `n`.
pub open spec fn node_size<V>(n: NaiveNode<V>) -> nat
    decreases n,
{
    1 + list_size(n.children@)
}

/// Total node count of a forest.
pub open spec fn list_size<V>(l: Seq<NaiveNode<V>>) -> nat
    decreases l,
{
    if l.len() == 0 {
        0
    } else {
        node_size(l[0]) + list_size(l.drop_first())
    }
}

/// Total node count of the forests in an encoder queue.
pub open spec fn queue_size<V>(q: Seq<Vec<NaiveNode<V>>>) -> nat
    decreases q,
{
    if q.len() == 0 {
        0
    } else {
        list_size(q[0]@) + queue_size(q.drop_first())
    }
}

pub proof fn lemma_queue_size_push<V>(q: Seq<Vec<NaiveNode<V>>>, x: Vec<NaiveNode<V>>)
    ensures
        queue_size(q.push(x)) == queue_size(q) + list_size(x@),
    decreases q.len(),
{
    if q.len() == 0 {
        assert(q.push(x)[0] == x);
        assert(q.push(x).drop_first() =~= Seq::<Vec<NaiveNode<V>>>::empty());
        assert(queue_size(q.push(x).drop_first()) == 0);
    } else {
        assert(q.push(x)[0] == q[0]);
        assert(q.push(x).drop_first() =~= q.drop_first().push(x));
        lemma_queue_size_push(q.drop_first(), x);
    }
}

/// Peeling one node off the front of a forest suffix.
pub proof fn lemma_list_size_skip<V>(l: Seq<NaiveNode<V>>, j: int)
    requires
        0 <= j < l.len(),
    ensures
        list_size(l.skip(j)) == node_size(l[j]) + list_size(l.skip(j + 1)),
{
    assert(l.skip(j).len() > 0);
    assert(l.skip(j)[0] == l[j]);
    assert(l.skip(j).drop_first() =~= l.skip(j + 1));
}

/// Two sequences with equal heads and equal tails are equal.
proof fn lemma_cons_eq(k: Seq<u8>, s: Seq<u8>)
    requires
        k.len() > 0,
        s.len() > 0,
        k[0] == s[0],
        k.drop_first() == s.drop_first(),
    ensures
        k == s,
{
    assert(k.drop_first().len() == k.len() - 1);
    assert(s.drop_first().len() == s.len() - 1);
    assert(k.len() == s.len());
    assert forall|i: int| 0 <= i < k.len() implies k[i] == s[i] by {
        if i > 0 {
            assert(k.drop_first()[i - 1] == k[i]);
            assert(s.drop_first()[i - 1] == s[i]);
        }
    }
    assert(k =~= s);
}

pub proof fn lemma_find_some_pub<V>(ch: Seq<NaiveNode<V>>, c: u8, j: int)
    requires
        forall|a: int, b: int| 0 <= a < b < ch.len() ==> ch[a].label < ch[b].label,
        0 <= j < ch.len(),
        ch[j].label == c,
    ensures
        find_idx(ch, c) == Some(j),
{
    lemma_find_some(ch, c, j);
}

pub proof fn lemma_find_none_pub<V>(ch: Seq<NaiveNode<V>>, c: u8)
    requires
        forall|a: int| 0 <= a < ch.len() ==> ch[a].label != c,
    ensures
        find_idx(ch, c) is None,
{
    lemma_find_none(ch, c);
}

proof fn lemma_find_some<V>(ch: Seq<NaiveNode<V>>, c: u8, j: int)
    requires
        forall|a: int, b: int| 0 <= a < b < ch.len() ==> ch[a].label < ch[b].label,
        0 <= j < ch.len(),
        ch[j].label == c,
    ensures
        find_idx(ch, c) == Some(j),
{
    let i = choose|i: int| 0 <= i < ch.len() && ch[i].label == c;
    if i != j {
        if i < j {
            assert(ch[i].label < ch[j].label);
        } else {
            assert(ch[j].label < ch[i].label);
        }
    }
}

proof fn lemma_find_none<V>(ch: Seq<NaiveNode<V>>, c: u8)
    requires
        forall|a: int| 0 <= a < ch.len() ==> ch[a].label != c,
    ensures
        find_idx(ch, c) is None,
{
}

/// One step of a walk: following the head label leads into the child.
proof fn lemma_subnode_step<V>(n: NaiveNode<V>, i: int, k: Seq<u8>)
    requires
        kids_sorted(n),
        0 <= i < n.children@.len(),
        k.len() > 0,
        n.children@[i].label == k[0],
    ensures
        subnode(n, k) == subnode(n.children@[i], k.drop_first()),
{
    lemma_find_some(n.children@, k[0], i);
}

/// Well-formedness passes from a node to each of its children.
proof fn lemma_wf_child<V>(n: NaiveNode<V>, i: int)
    requires
        wf_node(n),
        0 <= i < n.children@.len(),
    ensures
        wf_node(n.children@[i]),
{
    let child = n.children@[i];
    assert(subnode(n, Seq::<u8>::empty()) is Some);
    assert(kids_sorted(n));
    assert forall|k: Seq<u8>| (#[trigger] subnode(child, k)) is Some implies kids_sorted(
        subnode(child, k)->0,
    ) by {
        let kk = seq![child.label].add(k);
        assert(kk.len() > 0 && kk[0] == child.label);
        assert(kk.drop_first() =~= k);
        lemma_subnode_step(n, i, kk);
        assert(subnode(n, kk) is Some);
    }
}

/// The dangling-branch condition passes from a node to each child, which in
/// addition is itself constrained.
proof fn lemma_leafy_child<V>(n: NaiveNode<V>, i: int)
    requires
        wf_node(n),
        leafy(n),
        0 <= i < n.children@.len(),
    ensures
        leafy(n.children@[i]),
        node_ok(n.children@[i]),
{
    let child = n.children@[i];
    assert(subnode(n, Seq::<u8>::empty()) is Some);
    assert(kids_sorted(n));
    let k1 = seq![child.label];
    assert(k1.drop_first() =~= Seq::<u8>::empty());
    lemma_subnode_step(n, i, k1);
    assert(subnode(n, k1) == Some(child));
    assert forall|k: Seq<u8>|
        k.len() > 0 && (#[trigger] subnode(child, k)) is Some implies node_ok(
        subnode(child, k)->0,
    ) by {
        let kk = seq![child.label].add(k);
        assert(kk.len() > 0 && kk[0] == child.label);
        assert(kk.drop_first() =~= k);
        lemma_subnode_step(n, i, kk);
        assert(subnode(n, kk) is Some);
    }
}

/// The children of a well-formed node form a well-formed list.
pub proof fn lemma_list_wf_children<V>(n: NaiveNode<V>)
    requires
        wf_node(n),
        leafy(n),
    ensures
        list_wf(n.children@),
{
    assert(subnode(n, Seq::<u8>::empty()) is Some);
    assert(kids_sorted(n));
    assert forall|a: int| 0 <= a < n.children@.len() implies wf_node(#[trigger] n.children@[a])
        && node_ok(n.children@[a]) && leafy(n.children@[a]) by {
        lemma_wf_child(n, a);
        lemma_leafy_child(n, a);
    }
}

/// A fresh path holding the tail of `key` from position `depth`, ending in a
/// node that stores `value`.
fn make_chain<V>(key: &Vec<u8>, depth: usize, value: V) -> (r: NaiveNode<V>)
    requires
        depth < key@.len(),
    ensures
        r.label == key@[depth as int],
        wf_node(r),
        node_ok(r),
        leafy(r),
        forall|k: Seq<u8>|
            #[trigger] value_at(r, k) == if k == key@.skip(depth as int + 1) {
                Some(value)
            } else {
                None::<V>
            },
    decreases key@.len() - depth,
{
    let klen = key.len();
    if depth + 1 == klen {
        let r = NaiveNode { label: key[depth], value: Some(value), children: Vec::new() };
        proof {
            let suffix = key@.skip(depth as int + 1);
            assert(suffix =~= Seq::<u8>::empty());
            assert forall|k: Seq<u8>| #[trigger] value_at(r, k) == (if k == suffix {
                Some(value)
            } else {
                None::<V>
            }) by {
                if k.len() == 0 {
                    assert(k =~= suffix);
                } else {
                    lemma_find_none(r.children@, k[0]);
                }
            }
            assert forall|k: Seq<u8>| (#[trigger] subnode(r, k)) is Some implies kids_sorted(
                subnode(r, k)->0,
            ) && (k.len() > 0 ==> node_ok(subnode(r, k)->0)) by {
                if k.len() > 0 {
                    lemma_find_none(r.children@, k[0]);
                }
            }
        }
        r
    } else {
        let child = make_chain(key, depth + 1, value);
        let mut children: Vec<NaiveNode<V>> = Vec::new();
        children.push(child);
        let r = NaiveNode { label: key[depth], value: None, children };
        proof {
            let suffix = key@.skip(depth as int);
            let suffix1 = key@.skip(depth as int + 1);
            let suffix2 = key@.skip(depth as int + 2);
            assert(suffix1.len() > 0);
            assert(suffix1[0] == key@[depth as int + 1]);
            assert(suffix1.drop_first() =~= suffix2);
            assert forall|k: Seq<u8>| #[trigger] value_at(r, k) == (if k == suffix1 {
                Some(value)
            } else {
                None::<V>
            }) by {
                if k.len() == 0 {
                } else if k[0] == child.label {
                    lemma_subnode_step(r, 0, k);
                    assert(value_at(r, k) == value_at(child, k.drop_first()));
                    if k != suffix1 && k.drop_first() == suffix2 {
                        lemma_cons_eq(k, suffix1);
                    }
                } else {
                    lemma_find_none(r.children@, k[0]);
                }
            }
            assert forall|k: Seq<u8>| (#[trigger] subnode(r, k)) is Some implies kids_sorted(
                subnode(r, k)->0,
            ) && (k.len() > 0 ==> node_ok(subnode(r, k)->0)) by {
                if k.len() == 0 {
                } else if k[0] == child.label {
                    lemma_subnode_step(r, 0, k);
                    assert(subnode(r, k) == subnode(child, k.drop_first()));
                    if k.drop_first().len() == 0 {
                        assert(subnode(child, k.drop_first()) == Some(child));
                    }
                } else {
                    lemma_find_none(r.children@, k[0]);
                }
            }
        }
        r
    }
}

/// Replacing the child at `i` by one whose suffix map changed only at
/// `key.skip(depth + 1)` changes the parent's map only at `key.skip(depth)`.
proof fn lemma_child_updated<V>(
    oldn: NaiveNode<V>,
    newn: NaiveNode<V>,
    i: int,
    key: Seq<u8>,
    depth: int,
    value: V,
)
    requires
        wf_node(oldn),
        0 <= depth < key.len(),
        0 <= i < oldn.children@.len(),
        oldn.children@[i].label == key[depth],
        newn.children@.len() == oldn.children@.len(),
        forall|a: int|
            0 <= a < oldn.children@.len() && a != i ==> newn.children@[a] == oldn.children@[a],
        newn.label == oldn.label,
        newn.value == oldn.value,
        leafy(oldn),
        wf_node(newn.children@[i]),
        node_ok(newn.children@[i]),
        leafy(newn.children@[i]),
        newn.children@[i].label == key[depth],
        value_at(newn.children@[i], key.skip(depth + 1)) == Some(value),
        forall|k: Seq<u8>|
            k != key.skip(depth + 1) ==> #[trigger] value_at(newn.children@[i], k) == value_at(
                oldn.children@[i],
                k,
            ),
    ensures
        wf_node(newn),
        leafy(newn),
        value_at(newn, key.skip(depth)) == Some(value),
        value_at(oldn, key.skip(depth)) == value_at(oldn.children@[i], key.skip(depth + 1)),
        forall|k: Seq<u8>|
            k != key.skip(depth) ==> #[trigger] value_at(newn, k) == value_at(oldn, k),
{
    let c = key[depth];
    let oldc = oldn.children@[i];
    let newc = newn.children@[i];
    let suffix = key.skip(depth);
    let suffix1 = key.skip(depth + 1);
    assert(subnode(oldn, Seq::<u8>::empty()) is Some);
    assert(kids_sorted(oldn));
    assert(suffix.len() > 0);
    assert(suffix[0] == c);
    assert(suffix.drop_first() =~= suffix1);
    assert forall|a: int, b: int|
        0 <= a < b < newn.children@.len() implies newn.children@[a].label
        < newn.children@[b].label by {
        assert(oldn.children@[a].label < oldn.children@[b].label);
    }
    assert forall|k: Seq<u8>| k.len() > 0 && k[0] == c implies #[trigger] subnode(newn, k)
        == subnode(newc, k.drop_first()) && subnode(oldn, k) == subnode(oldc, k.drop_first()) by {
        lemma_subnode_step(newn, i, k);
        lemma_subnode_step(oldn, i, k);
    }
    assert forall|k: Seq<u8>| k.len() > 0 && k[0] != c implies #[trigger] subnode(newn, k)
        == subnode(oldn, k) by {
        if exists|a: int| 0 <= a < oldn.children@.len() && oldn.children@[a].label == k[0] {
            let a = choose|a: int|
                0 <= a < oldn.children@.len() && oldn.children@[a].label == k[0];
            lemma_subnode_step(oldn, a, k);
            lemma_subnode_step(newn, a, k);
            assert(newn.children@[a] == oldn.children@[a]);
        } else {
            lemma_find_none(oldn.children@, k[0]);
            lemma_find_none(newn.children@, k[0]);
        }
    }
    assert(value_at(newn, suffix) == value_at(newc, suffix1));
    assert(value_at(oldn, suffix) == value_at(oldc, suffix1));
    assert forall|k: Seq<u8>| k != suffix implies #[trigger] value_at(newn, k) == value_at(
        oldn,
        k,
    ) by {
        if k.len() == 0 {
        } else if k[0] == c {
            if k.drop_first() == suffix1 {
                lemma_cons_eq(k, suffix);
            }
            assert(subnode(newn, k) == subnode(newc, k.drop_first()));
            assert(value_at(newc, k.drop_first()) == value_at(oldc, k.drop_first()));
        } else {
            assert(subnode(newn, k) == subnode(oldn, k));
        }
    }
    assert forall|k: Seq<u8>| (#[trigger] subnode(newn, k)) is Some implies kids_sorted(
        subnode(newn, k)->0,
    ) && (k.len() > 0 ==> node_ok(subnode(newn, k)->0)) by {
        if k.len() == 0 {
            assert(subnode(newn, k)->0 == newn);
        } else if k[0] == c {
            assert(subnode(newn, k) == subnode(newc, k.drop_first()));
            assert(subnode(newc, k.drop_first()) is Some);
            if k.drop_first().len() == 0 {
                assert(subnode(newc, k.drop_first()) == Some(newc));
            }
        } else {
            assert(subnode(newn, k) == subnode(oldn, k));
            assert(subnode(oldn, k) is Some);
        }
    }
}

/// Splicing a fresh chain for label `key[depth]` into the children adds
/// exactly the binding at `key.skip(depth)` to the parent's map.
proof fn lemma_child_inserted<V>(
    oldn: NaiveNode<V>,
    newn: NaiveNode<V>,
    i: int,
    chain: NaiveNode<V>,
    key: Seq<u8>,
    depth: int,
    value: V,
)
    requires
        wf_node(oldn),
        0 <= depth < key.len(),
        0 <= i <= oldn.children@.len(),
        forall|a: int| 0 <= a < i ==> oldn.children@[a].label < key[depth],
        forall|a: int|
            i <= a < oldn.children@.len() ==> oldn.children@[a].label > key[depth],
        newn.children@ == oldn.children@.insert(i, chain),
        newn.label == oldn.label,
        newn.value == oldn.value,
        leafy(oldn),
        wf_node(chain),
        node_ok(chain),
        leafy(chain),
        chain.label == key[depth],
        forall|k: Seq<u8>|
            #[trigger] value_at(chain, k) == if k == key.skip(depth + 1) {
                Some(value)
            } else {
                None::<V>
            },
    ensures
        wf_node(newn),
        leafy(newn),
        value_at(newn, key.skip(depth)) == Some(value),
        value_at(oldn, key.skip(depth)) is None,
        forall|k: Seq<u8>|
            k != key.skip(depth) ==> #[trigger] value_at(newn, k) == value_at(oldn, k),
{
    let c = key[depth];
    let suffix = key.skip(depth);
    let suffix1 = key.skip(depth + 1);
    assert(subnode(oldn, Seq::<u8>::empty()) is Some);
    assert(kids_sorted(oldn));
    assert(suffix.len() > 0);
    assert(suffix[0] == c);
    assert(suffix.drop_first() =~= suffix1);
    assert(newn.children@.len() == oldn.children@.len() + 1);
    assert(newn.children@[i] == chain);
    assert(forall|a: int| 0 <= a < i ==> newn.children@[a] == oldn.children@[a]);
    assert(forall|a: int|
        i < a < newn.children@.len() ==> newn.children@[a] == oldn.children@[a - 1]);
    assert(forall|a: int| 0 <= a < oldn.children@.len() ==> oldn.children@[a].label != c);
    assert forall|a: int, b: int|
        0 <= a < b < newn.children@.len() implies newn.children@[a].label
        < newn.children@[b].label by {
        if b < i {
            assert(oldn.children@[a].label < oldn.children@[b].label);
        } else if a > i {
            assert(oldn.children@[a - 1].label < oldn.children@[b - 1].label);
        } else if a < i && b > i {
            assert(oldn.children@[a].label < c);
            assert(oldn.children@[b - 1].label > c);
        }
    }
    assert forall|k: Seq<u8>| k.len() > 0 && k[0] == c implies #[trigger] subnode(newn, k)
        == subnode(chain, k.drop_first()) && subnode(oldn, k) is None by {
        lemma_subnode_step(newn, i, k);
        lemma_find_none(oldn.children@, c);
    }
    assert forall|k: Seq<u8>| k.len() > 0 && k[0] != c implies #[trigger] subnode(newn, k)
        == subnode(oldn, k) by {
        if exists|a: int| 0 <= a < oldn.children@.len() && oldn.children@[a].label == k[0] {
            let a = choose|a: int|
                0 <= a < oldn.children@.len() && oldn.children@[a].label == k[0];
            lemma_subnode_step(oldn, a, k);
            if a < i {
                assert(newn.children@[a] == oldn.children@[a]);
                lemma_subnode_step(newn, a, k);
            } else {
                assert(newn.children@[a + 1] == oldn.children@[a]);
                lemma_subnode_step(newn, a + 1, k);
            }
        } else {
            lemma_find_none(oldn.children@, k[0]);
            lemma_find_none(newn.children@, k[0]);
        }
    }
    assert(value_at(newn, suffix) == value_at(chain, suffix1));
    assert(value_at(oldn, suffix) is None);
    assert forall|k: Seq<u8>| k != suffix implies #[trigger] value_at(newn, k) == value_at(
        oldn,
        k,
    ) by {
        if k.len() == 0 {
        } else if k[0] == c {
            if k.drop_first() == suffix1 {
                lemma_cons_eq(k, suffix);
            }
            assert(subnode(newn, k) == subnode(chain, k.drop_first()) && subnode(oldn, k) is None);
            assert(value_at(chain, k.drop_first()) == None::<V>);
        } else {
            assert(subnode(newn, k) == subnode(oldn, k));
        }
    }
    assert forall|k: Seq<u8>| (#[trigger] subnode(newn, k)) is Some implies kids_sorted(
        subnode(newn, k)->0,
    ) && (k.len() > 0 ==> node_ok(subnode(newn, k)->0)) by {
        if k.len() == 0 {
            assert(subnode(newn, k)->0 == newn);
        } else if k[0] == c {
            assert(subnode(newn, k) == subnode(chain, k.drop_first()));
            assert(subnode(chain, k.drop_first()) is Some);
            if k.drop_first().len() == 0 {
                assert(subnode(chain, k.drop_first()) == Some(chain));
            }
        } else {
            assert(subnode(newn, k) == subnode(oldn, k));
            assert(subnode(oldn, k) is Some);
        }
    }
}

/// Store `value` for the suffix of `key` starting at `depth`, below `n`;
/// the previous value for that suffix comes back.
fn insert_at<V>(n: &mut NaiveNode<V>, key: &Vec<u8>, depth: usize, value: V) -> (prev: Option<V>)
    requires
        depth <= key@.len(),
        wf_node(*old(n)),
        leafy(*old(n)),
    ensures
        wf_node(*final(n)),
        leafy(*final(n)),
        node_ok(*final(n)),
        final(n).label == old(n).label,
        final(n).value == if key@.skip(depth as int).len() == 0 {
            Some(value)
        } else {
            old(n).value
        },
        prev == value_at(*old(n), key@.skip(depth as int)),
        value_at(*final(n), key@.skip(depth as int)) == Some(value),
        forall|k: Seq<u8>|
            k != key@.skip(depth as int) ==> #[trigger] value_at(*final(n), k) == value_at(
                *old(n),
                k,
            ),
    decreases key@.len() - depth,
{
    proof {
        assert(subnode(*old(n), Seq::<u8>::empty()) is Some);
        assert(kids_sorted(*old(n)));
    }
    let klen = key.len();
    if depth == klen {
        let mut held: Option<V> = Some(value);
        core::mem::swap(&mut n.value, &mut held);
        proof {
            let suffix = key@.skip(depth as int);
            assert(suffix =~= Seq::<u8>::empty());
            assert(n.children@ == old(n).children@);
            assert forall|k: Seq<u8>| k.len() > 0 implies #[trigger] subnode(*n, k) == subnode(
                *old(n),
                k,
            ) by {}
            assert forall|k: Seq<u8>| k != suffix implies #[trigger] value_at(*n, k) == value_at(
                *old(n),
                k,
            ) by {
                if k.len() == 0 {
                    assert(k =~= suffix);
                }
            }
            assert forall|k: Seq<u8>| (#[trigger] subnode(*n, k)) is Some implies kids_sorted(
                subnode(*n, k)->0,
            ) && (k.len() > 0 ==> node_ok(subnode(*n, k)->0)) by {
                if k.len() == 0 {
                    assert(subnode(*n, k)->0 == *n);
                } else {
                    assert(subnode(*old(n), k) is Some);
                }
            }
        }
        held
    } else {
        let c = key[depth];
        let mut i: usize = 0;
        while i < n.children.len() && n.children[i].label < c
            invariant
                0 <= i <= n.children@.len(),
                n == old(n),
                forall|a: int| 0 <= a < i ==> n.children@[a].label < c,
            decreases n.children@.len() - i,
        {
            i += 1;
        }
        proof {
            assert forall|a: int| i <= a < n.children@.len() && n.children@[a].label
                != c implies n.children@[a].label > c by {
                if a > i {
                    assert(n.children@[i as int].label < n.children@[a].label);
                }
            }
        }
        if i < n.children.len() && n.children[i].label == c {
            let ghost oldn = *old(n);
            proof {
                lemma_wf_child(oldn, i as int);
                lemma_leafy_child(oldn, i as int);
            }
            let child = &mut n.children[i];
            let prev = insert_at(child, key, depth + 1, value);
            proof {
                lemma_child_updated(oldn, *n, i as int, key@, depth as int, value);
            }
            prev
        } else {
            let ghost oldn = *old(n);
            proof {
                assert(forall|a: int|
                    i <= a < oldn.children@.len() ==> oldn.children@[a].label > c);
            }
            let chain = make_chain(key, depth, value);
            n.children.insert(i, chain);
            proof {
                lemma_child_inserted(oldn, *n, i as int, chain, key@, depth as int, value);
            }
            None
        }
    }
}

/// Insert `value` for the whole `key` below the root node `n`.
pub fn root_insert<V>(n: &mut NaiveNode<V>, key: &Vec<u8>, value: V) -> (prev: Option<V>)
    requires
        wf_node(*old(n)),
        leafy(*old(n)),
    ensures
        wf_node(*final(n)),
        leafy(*final(n)),
        node_ok(*final(n)),
        final(n).label == old(n).label,
        final(n).value == if key@.len() == 0 {
            Some(value)
        } else {
            old(n).value
        },
        prev == value_at(*old(n), key@),
        value_at(*final(n), key@) == Some(value),
        forall|k: Seq<u8>| k != key@ ==> #[trigger] value_at(*final(n), k) == value_at(*old(n), k),
{
    proof {
        assert(key@.skip(0) =~= key@);
    }
    insert_at(n, key, 0, value)
}

} // verus!
