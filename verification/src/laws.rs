//! Properties of the search operations that relate several of them, proved
//! over the encoded-array model that the operations' own contracts use.

use crate::louds::{
    all_keys, cps_upto, has_key, lemma_lex_prepend_seq, lemma_root_node, lemma_sub_keys_exact,
    lemma_sub_keys_sorted, lemma_walk_concat, lex_lt, postfix_keys, predictive_keys,
    prefix_keys, sub_keys, walk, walk_from, TrieView,
};
use crate::map_trie::search::lemma_walk_extend;
use vstd::prelude::*;

verus! {

/// Every result of a postfix search, prefixed with the query, is the
/// predictive-search result at the same position: the two enumerations are
/// in bijection, index by index.
pub proof fn lemma_postfix_predictive_bijection<V>(v: TrieView<V>, q: Seq<u8>)
    ensures
        predictive_keys(v, q).len() == postfix_keys(v, q).len(),
        forall|i: int|
            0 <= i < postfix_keys(v, q).len() ==> #[trigger] predictive_keys(v, q)[i] == q
                + postfix_keys(v, q)[i],
{
    assert forall|i: int|
        0 <= i < postfix_keys(v, q).len() implies #[trigger] predictive_keys(v, q)[i] == q
        + postfix_keys(v, q)[i] by {
        assert(predictive_keys(v, q)[i] == postfix_keys(v, q).map_values(|s: Seq<u8>| q + s)[i]);
    }
}

/// The walk for the empty query always succeeds: the empty sequence is a
/// prefix of every trie.
pub proof fn lemma_empty_is_prefix<V>(v: TrieView<V>)
    ensures
        walk(v, Seq::<u8>::empty()) is Some,
{
}

/// Every prefix of a stored key passes the prefix test: the walk to the key
/// runs through it.
pub proof fn lemma_key_prefix_walks<V>(v: TrieView<V>, q: Seq<u8>, k: Seq<u8>)
    requires
        has_key(v, k),
        q.len() <= k.len(),
        q == k.take(q.len() as int),
    ensures
        walk(v, q) is Some,
{
    if walk(v, q) is None {
        lemma_walk_extend(v, k, q.len() as int);
    }
}

/// What the prefix search collects, prefix length by prefix length: exactly
/// the keys among the prefixes of `q` shorter than `i`, each once, ordered
/// by strictly increasing length.
pub proof fn lemma_cps_upto_exact<V>(v: TrieView<V>, q: Seq<u8>, i: int)
    requires
        0 <= i <= q.len() + 1,
    ensures
        forall|p: Seq<u8>|
            #[trigger] cps_upto(v, q, i).contains(p) <==> (has_key(v, p) && p.len() < i && p
                == q.take(p.len() as int)),
        forall|a: int, b: int|
            0 <= a < b < cps_upto(v, q, i).len() ==> cps_upto(v, q, i)[a].len() < cps_upto(
                v,
                q,
                i,
            )[b].len(),
        forall|a: int| 0 <= a < cps_upto(v, q, i).len() ==> #[trigger] cps_upto(v, q, i)[a].len() < i,
    decreases i,
{
    if i > 0 {
        lemma_cps_upto_exact(v, q, i - 1);
        let prev = cps_upto(v, q, i - 1);
        let cur = cps_upto(v, q, i);
        let tail: Seq<Seq<u8>> = if has_key(v, q.take(i - 1)) {
            seq![q.take(i - 1)]
        } else {
            Seq::empty()
        };
        assert(cur == prev + tail);
        assert(q.take(i - 1).len() == i - 1);
        assert forall|p: Seq<u8>| #[trigger] cur.contains(p) implies (has_key(v, p) && p.len() < i
            && p == q.take(p.len() as int)) by {
            let x = choose|x: int| 0 <= x < cur.len() && cur[x] == p;
            if x < prev.len() {
                assert(prev[x] == p);
                assert(prev.contains(p));
            } else {
                assert(p == q.take(i - 1));
            }
        }
        assert forall|p: Seq<u8>| (has_key(v, p) && p.len() < i && p == q.take(
            p.len() as int,
        )) implies #[trigger] cur.contains(p) by {
            if p.len() < i - 1 {
                assert(prev.contains(p));
                let x = choose|x: int| 0 <= x < prev.len() && prev[x] == p;
                assert(cur[x] == p);
            } else {
                assert(p.len() == i - 1);
                assert(p == q.take(i - 1));
                assert(cur[cur.len() - 1] == p);
            }
        }
        assert forall|a: int, b: int| 0 <= a < b < cur.len() implies cur[a].len()
            < cur[b].len() by {
            if b < prev.len() {
            } else {
                assert(cur[b] == tail[b - prev.len()]);
                if a < prev.len() {
                    assert(cur[a] == prev[a]);
                    assert(prev[a].len() < i - 1);
                }
            }
        }
    }
}

/// The prefix search yields exactly the stored keys that are prefixes of
/// `q`, each once, ordered by strictly increasing length.
pub proof fn lemma_prefix_keys_exact<V>(v: TrieView<V>, q: Seq<u8>)
    ensures
        forall|p: Seq<u8>|
            #[trigger] prefix_keys(v, q).contains(p) <==> (has_key(v, p) && p.len() <= q.len() && p
                == q.take(p.len() as int)),
        forall|a: int, b: int|
            0 <= a < b < prefix_keys(v, q).len() ==> prefix_keys(v, q)[a].len() < prefix_keys(
                v,
                q,
            )[b].len(),
{
    lemma_cps_upto_exact(v, q, q.len() as int + 1);
}

/// The full enumeration lists exactly the stored keys, each once, in
/// strictly increasing lexicographic order.
pub proof fn lemma_iter_exact<V>(v: TrieView<V>)
    requires
        crate::louds::wf(v),
    ensures
        forall|k: Seq<u8>| #[trigger] all_keys(v).contains(k) <==> has_key(v, k),
        forall|i: int, j: int|
            0 <= i < j < all_keys(v).len() ==> lex_lt(all_keys(v)[i], all_keys(v)[j]),
{
    lemma_root_node(v);
    lemma_sub_keys_exact(v, 1);
    lemma_sub_keys_sorted(v, 1);
}

/// The predictive search yields exactly the stored keys having `q` as a
/// prefix, each once, in strictly increasing lexicographic order.
pub proof fn lemma_predictive_keys_exact<V>(v: TrieView<V>, q: Seq<u8>)
    requires
        crate::louds::wf(v),
    ensures
        forall|k: Seq<u8>|
            #[trigger] predictive_keys(v, q).contains(k) <==> (has_key(v, k) && q.len() <= k.len()
                && q == k.take(q.len() as int)),
        forall|i: int, j: int|
            0 <= i < j < predictive_keys(v, q).len() ==> lex_lt(
                predictive_keys(v, q)[i],
                predictive_keys(v, q)[j],
            ),
{
    lemma_root_node(v);
    let pk = predictive_keys(v, q);
    match walk(v, q) {
        None => {
            assert(postfix_keys(v, q) == Seq::<Seq<u8>>::empty());
            assert(pk.len() == 0);
            assert forall|k: Seq<u8>| #[trigger] pk.contains(k) <==> (has_key(v, k) && q.len()
                <= k.len() && q == k.take(q.len() as int)) by {
                if has_key(v, k) && q.len() <= k.len() && q == k.take(q.len() as int) {
                    lemma_key_prefix_walks(v, q, k);
                }
            }
        },
        Some(n) => {
            crate::louds::lemma_walk_range(v, 1, q);
            lemma_sub_keys_exact(v, n);
            lemma_sub_keys_sorted(v, n);
            let sk = sub_keys(v, n);
            assert(pk == sk.map_values(|s: Seq<u8>| q + s));
            assert forall|k: Seq<u8>| #[trigger] pk.contains(k) implies (has_key(v, k) && q.len()
                <= k.len() && q == k.take(q.len() as int)) by {
                let x = choose|x: int| 0 <= x < pk.len() && pk[x] == k;
                let s = sk[x];
                assert(pk[x] == q + s);
                assert(sk.contains(s));
                lemma_walk_concat(v, 1, q, s);
                assert((q + s).take(q.len() as int) =~= q);
            }
            assert forall|k: Seq<u8>| (has_key(v, k) && q.len() <= k.len() && q == k.take(
                q.len() as int,
            )) implies #[trigger] pk.contains(k) by {
                let s = k.skip(q.len() as int);
                assert(k =~= q + s);
                lemma_walk_concat(v, 1, q, s);
                assert(walk_from(v, n, s) is Some && crate::louds::is_term(
                    v,
                    walk_from(v, n, s)->0,
                ));
                assert(sk.contains(s));
                let x = choose|x: int| 0 <= x < sk.len() && sk[x] == s;
                assert(pk[x] == q + s);
            }
            assert forall|i: int, j: int| 0 <= i < j < pk.len() implies lex_lt(pk[i], pk[j]) by {
                assert(pk[i] == q + sk[i]);
                assert(pk[j] == q + sk[j]);
                lemma_lex_prepend_seq(q, sk[i], sk[j]);
            }
        },
    }
}

/// The prefix test answers true exactly for the empty query, the stored
/// keys, and the strict prefixes of stored keys, on any trie whose branches
/// all end in keys — as every built trie's do.
pub proof fn lemma_is_prefix_exact<V>(v: TrieView<V>, q: Seq<u8>)
    requires
        crate::louds::wf(v),
        crate::louds::no_bare_leaf(v),
    ensures
        (walk(v, q) is Some) <==> (q.len() == 0 || exists|k: Seq<u8>|
            #[trigger] has_key(v, k) && q.len() <= k.len() && q == k.take(q.len() as int)),
{
    if walk(v, q) is Some && q.len() > 0 {
        let n = walk(v, q)->0;
        crate::louds::lemma_walk_range(v, 1, q);
        crate::louds::lemma_subtree_has_key(v, n);
        let s = choose|s: Seq<u8>|
            (#[trigger] walk_from(v, n, s)) matches Some(m) && crate::louds::is_term(v, m);
        let k = q + s;
        lemma_walk_concat(v, 1, q, s);
        assert(has_key(v, k));
        assert(k.take(q.len() as int) =~= q);
    }
    if q.len() > 0 && exists|k: Seq<u8>|
        #[trigger] has_key(v, k) && q.len() <= k.len() && q == k.take(q.len() as int) {
        let k = choose|k: Seq<u8>|
            #[trigger] has_key(v, k) && q.len() <= k.len() && q == k.take(q.len() as int);
        lemma_key_prefix_walks(v, q, k);
    }
}

/// Enumeration is determined by the key set alone: two tries storing the
/// same keys — however they were inserted — enumerate identically.
pub proof fn lemma_same_keys_same_enumeration<V, W>(v1: TrieView<V>, v2: TrieView<W>)
    requires
        crate::louds::wf(v1),
        crate::louds::wf(v2),
        forall|k: Seq<u8>| #[trigger] has_key(v1, k) <==> has_key(v2, k),
    ensures
        all_keys(v1) == all_keys(v2),
{
    lemma_iter_exact(v1);
    lemma_iter_exact(v2);
    assert forall|k: Seq<u8>| #[trigger] all_keys(v1).contains(k) <==> all_keys(v2).contains(
        k,
    ) by {}
    crate::louds::lemma_sorted_unique(all_keys(v1), all_keys(v2));
}

} // verus!
