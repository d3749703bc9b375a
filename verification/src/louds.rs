//! The mathematical model of the succinct trie: four co-indexed arrays, the
//! LOUDS navigation defined over them by rank/select arithmetic, and the
//! well-formedness conditions that make the bit sequence encode a tree.
//!
//! Node `1` is the root; a node number `m >= 2` is a real node whose label
//! sits at `labels[m - 2]`. The children of node `k` form the consecutive
//! block of numbers `[cs(k), ce(k))`.

use crate::bits::{
    lemma_rk_sum, lemma_rkb_bounds, lemma_rkb_mono, lemma_rkb_push, lemma_rkb_push_all,
    lemma_rkb_window, lemma_selb_char, rk0, rk1, rkb, sel0,
};
use vstd::prelude::*;

verus! {

/// The four encoded arrays of a succinct trie.
pub struct TrieView<V> {
    pub bits: Seq<bool>,
    pub labels: Seq<u8>,
    pub terms: Seq<bool>,
    pub vals: Seq<V>,
}

/// Total number of nodes, the root included.
pub open spec fn nnodes<V>(v: TrieView<V>) -> int {
    rk1(v.bits, v.bits.len() as int)
}

/// Position of the k-th clear bit; the run of node `k` ends just before the
/// `(k+1)`-th clear bit. `zpos(v, 0) == -1` stands for the virtual start.
pub open spec fn zpos<V>(v: TrieView<V>, k: int) -> int {
    if k <= 0 {
        -1
    } else {
        sel0(v.bits, k)
    }
}

/// First child number of node `k`.
pub open spec fn cs<V>(v: TrieView<V>, k: int) -> int {
    rk1(v.bits, zpos(v, k)) + 1
}

/// Number of children of node `k`.
pub open spec fn deg<V>(v: TrieView<V>, k: int) -> int {
    zpos(v, k + 1) - zpos(v, k) - 1
}

/// One past the last child number of node `k`.
pub open spec fn ce<V>(v: TrieView<V>, k: int) -> int {
    cs(v, k) + deg(v, k)
}

/// Edge label of node `m` (`m >= 2`).
pub open spec fn lab<V>(v: TrieView<V>, m: int) -> u8 {
    v.labels[m - 2]
}

/// Whether node `m` stores a value.
pub open spec fn is_term<V>(v: TrieView<V>, m: int) -> bool {
    v.terms[m]
}

/// Index into the dense value array for terminal node `m`.
pub open spec fn val_idx<V>(v: TrieView<V>, m: int) -> int {
    rk1(v.terms, m)
}

/// Value stored at terminal node `m`.
pub open spec fn node_val<V>(v: TrieView<V>, m: int) -> V {
    v.vals[val_idx(v, m)]
}

pub open spec fn has_child<V>(v: TrieView<V>, n: int, c: u8) -> bool {
    exists|m: int| cs(v, n) <= m < ce(v, n) && lab(v, m) == c
}

pub open spec fn child_of<V>(v: TrieView<V>, n: int, c: u8) -> int {
    choose|m: int| cs(v, n) <= m < ce(v, n) && lab(v, m) == c
}

/// Node reached from `n` by consuming the labels of `q`.
pub open spec fn walk_from<V>(v: TrieView<V>, n: int, q: Seq<u8>) -> Option<int>
    decreases q.len(),
{
    if q.len() == 0 {
        Some(n)
    } else if has_child(v, n, q[0]) {
        walk_from(v, child_of(v, n, q[0]), q.drop_first())
    } else {
        None
    }
}

pub open spec fn walk<V>(v: TrieView<V>, q: Seq<u8>) -> Option<int> {
    walk_from(v, 1, q)
}

/// Whether `q` is a key of the encoded trie.
pub open spec fn has_key<V>(v: TrieView<V>, q: Seq<u8>) -> bool {
    walk(v, q) matches Some(m) && is_term(v, m)
}

/// The value bound to key `q`.
pub open spec fn key_val<V>(v: TrieView<V>, q: Seq<u8>) -> V {
    node_val(v, walk(v, q)->0)
}

pub open spec fn all_ones_between(s: Seq<bool>, p: int, q: int) -> bool {
    forall|r: int| p < r < q ==> s[r]
}

/// Labels of siblings — consecutive set bits inside one run — increase
/// strictly, stated positionally over the bit sequence.
pub open spec fn sorted_runs(s: Seq<bool>, l: Seq<u8>) -> bool {
    forall|p: int, q: int|
        1 <= p < q < s.len() && s[p] && s[q] && #[trigger] all_ones_between(s, p, q) ==> l[rk1(
            s,
            p,
        ) - 1] < l[rk1(s, q) - 1]
}

/// Every clear bit closes a run whose owner was already introduced: at each
/// clear bit, strictly more set than clear bits precede (the final clear bit
/// excepted).
pub open spec fn zeros_strict(s: Seq<bool>) -> bool {
    forall|i: int|
        0 <= i < s.len() && !(#[trigger] s[i]) ==> rk1(s, i) >= rk0(s, i) + 1 || i == s.len() - 1
}

/// The arrays encode a tree: the sentinel pair leads, counts match, every
/// run closes after its owner appeared, and sibling labels increase.
pub open spec fn wf<V>(v: TrieView<V>) -> bool {
    &&& v.bits.len() >= 3
    &&& v.bits[0]
    &&& !v.bits[1]
    &&& v.bits.len() == 2 * nnodes(v) + 1
    &&& zeros_strict(v.bits)
    &&& sorted_runs(v.bits, v.labels)
    &&& v.labels.len() == nnodes(v) - 1
    &&& v.terms.len() == nnodes(v) + 1
    &&& !v.terms[0]
    &&& !v.terms[1]
    &&& v.vals.len() == rk1(v.terms, v.terms.len() as int)
}

/// The k-th zero exists for `k <= nnodes + 1` and marks `k - 1` earlier zeros.
pub proof fn lemma_zpos<V>(v: TrieView<V>, k: int)
    requires
        wf(v),
        1 <= k <= nnodes(v) + 1,
    ensures
        0 <= zpos(v, k) < v.bits.len(),
        !v.bits[zpos(v, k)],
        rk0(v.bits, zpos(v, k)) == k - 1,
{
    lemma_rk_sum(v.bits, v.bits.len() as int);
    lemma_selb_char(v.bits, false, k, 0);
}

pub proof fn lemma_zpos_mono<V>(v: TrieView<V>, k: int, k2: int)
    requires
        wf(v),
        0 <= k < k2 <= nnodes(v) + 1,
    ensures
        zpos(v, k) < zpos(v, k2),
{
    if k >= 1 {
        lemma_zpos(v, k);
        lemma_zpos(v, k2);
        if zpos(v, k) >= zpos(v, k2) {
            lemma_rkb_mono(v.bits, false, zpos(v, k2), zpos(v, k));
            assert(false);
        }
    } else {
        lemma_zpos(v, k2);
    }
}

/// The final zero sits on the last position.
pub proof fn lemma_last_zero<V>(v: TrieView<V>)
    requires
        wf(v),
    ensures
        zpos(v, nnodes(v) + 1) == v.bits.len() - 1,
        rk1(v.bits, v.bits.len() - 1) == nnodes(v),
{
    let n = nnodes(v);
    let z = zpos(v, n + 1);
    lemma_zpos(v, n + 1);
    lemma_rk_sum(v.bits, v.bits.len() as int);
    lemma_rk_sum(v.bits, z);
    if z < v.bits.len() - 1 {
        lemma_rkb_mono(v.bits, true, z, v.bits.len() as int);
        assert(rk1(v.bits, z) >= rk0(v.bits, z) + 1);
        assert(false);
    }
    lemma_rk_sum(v.bits, v.bits.len() - 1);
    lemma_rkb_mono(v.bits, false, v.bits.len() - 1, v.bits.len() as int);
    lemma_rkb_mono(v.bits, true, v.bits.len() - 1, v.bits.len() as int);
}

/// Bits strictly between consecutive zeros are ones, and counting across the
/// run is plain arithmetic.
pub proof fn lemma_run_ones<V>(v: TrieView<V>, k: int)
    requires
        wf(v),
        0 <= k <= nnodes(v),
    ensures
        forall|r: int| zpos(v, k) < r < zpos(v, k + 1) ==> v.bits[r],
        rk1(v.bits, zpos(v, k + 1)) == rk1(v.bits, zpos(v, k)) + (zpos(v, k + 1) - zpos(v, k) - 1),
    decreases 0int,
{
    let z1 = zpos(v, k);
    let z2 = zpos(v, k + 1);
    lemma_zpos(v, k + 1);
    lemma_zpos_mono(v, k, k + 1);
    if k >= 1 {
        lemma_zpos(v, k);
    }
    assert(rk0(v.bits, z1 + 1) == k) by {
        if k >= 1 {
            assert(rk0(v.bits, z1 + 1) == rk0(v.bits, z1) + 1);
        }
    }
    lemma_rkb_window(v.bits, false, z1 + 1, z2);
    lemma_rk_sum(v.bits, z1 + 1);
    lemma_rk_sum(v.bits, z2);
    assert(rk1(v.bits, z1 + 1) == rk1(v.bits, z1)) by {
        if k >= 1 {
            assert(v.bits[z1] != true);
        }
    }
}

/// First-child numbers: the root's block starts at 1, every block starts
/// past its owner, blocks tile the node numbers in order, and the last block
/// ends at `nnodes + 1`.
pub proof fn lemma_cs_facts<V>(v: TrieView<V>, k: int)
    requires
        wf(v),
        0 <= k <= nnodes(v),
    ensures
        cs(v, 0) == 1,
        cs(v, k) >= k + 1,
        deg(v, k) >= 0,
        ce(v, k) == cs(v, k + 1),
        cs(v, nnodes(v) + 1) == nnodes(v) + 1,
{
    let n = nnodes(v);
    lemma_run_ones(v, k);
    lemma_zpos_mono(v, k, k + 1);
    lemma_last_zero(v);
    if k >= 1 {
        lemma_zpos(v, k);
        lemma_zpos(v, k + 1);
        assert(zpos(v, k) < v.bits.len() - 1) by {
            lemma_zpos_mono(v, k, n + 1);
        }
        assert(rk1(v.bits, zpos(v, k)) >= rk0(v.bits, zpos(v, k)) + 1);
    }
    assert(cs(v, n + 1) == n + 1) by {
        lemma_zpos(v, n + 1);
        lemma_rk_sum(v.bits, zpos(v, n + 1));
    }
}

pub proof fn lemma_cs_mono<V>(v: TrieView<V>, k: int, k2: int)
    requires
        wf(v),
        0 <= k <= k2 <= nnodes(v) + 1,
    ensures
        cs(v, k) <= cs(v, k2),
    decreases k2 - k,
{
    if k < k2 {
        lemma_cs_facts(v, k);
        lemma_cs_mono(v, k + 1, k2);
    }
}

/// A member of block `k` is a real node in range, its set bit lies in run `k`,
/// and its rank recovers its number.
pub proof fn lemma_block_member<V>(v: TrieView<V>, k: int, m: int)
    requires
        wf(v),
        0 <= k <= nnodes(v),
        cs(v, k) <= m < ce(v, k),
    ensures
        1 <= m <= nnodes(v),
        k >= 1 ==> 2 <= m,
        v.bits[zpos(v, k) + 1 + (m - cs(v, k))],
        rk1(v.bits, zpos(v, k) + 1 + (m - cs(v, k))) == m - 1,
        zpos(v, k) < zpos(v, k) + 1 + (m - cs(v, k)) < zpos(v, k + 1),
{
    let z1 = zpos(v, k);
    let z2 = zpos(v, k + 1);
    let p = z1 + 1 + (m - cs(v, k));
    lemma_cs_facts(v, k);
    lemma_zpos(v, k + 1);
    if k >= 1 {
        lemma_zpos(v, k);
    }
    lemma_run_ones(v, k);
    lemma_zpos_mono(v, k, k + 1);
    assert(z1 < p < z2);
    assert(z2 < v.bits.len());
    assert(v.bits[p]);
    // count the ones from the start of the run up to p
    lemma_count_run(v.bits, z1 + 1, p);
    assert(rk1(v.bits, z1 + 1) == rk1(v.bits, z1)) by {
        if k >= 1 {
            lemma_zpos(v, k);
            assert(v.bits[z1] != true);
        }
    }
    assert(m < ce(v, k) && ce(v, k) == cs(v, k + 1));
    lemma_cs_mono(v, k + 1, nnodes(v) + 1);
}

/// Counting ones over an all-ones window.
pub proof fn lemma_count_run(s: Seq<bool>, a: int, b: int)
    requires
        0 <= a <= b <= s.len(),
        forall|r: int| a <= r < b ==> s[r],
    ensures
        rk1(s, b) == rk1(s, a) + (b - a),
    decreases b - a,
{
    if a < b {
        lemma_count_run(s, a, b - 1);
    }
}

/// Sibling labels increase with the node number.
pub proof fn lemma_block_sorted<V>(v: TrieView<V>, k: int, m: int, m2: int)
    requires
        wf(v),
        1 <= k <= nnodes(v),
        cs(v, k) <= m < m2 < ce(v, k),
    ensures
        lab(v, m) < lab(v, m2),
{
    let z1 = zpos(v, k);
    let p = z1 + 1 + (m - cs(v, k));
    let p2 = z1 + 1 + (m2 - cs(v, k));
    lemma_block_member(v, k, m);
    lemma_block_member(v, k, m2);
    lemma_run_ones(v, k);
    lemma_zpos(v, k);
    lemma_zpos(v, k + 1);
    assert(1 <= p) by {
        lemma_zpos_mono(v, 0, k);
    }
    assert(p2 < zpos(v, k + 1) < v.bits.len());
    assert(all_ones_between(v.bits, p, p2));
    assert(v.labels[rk1(v.bits, p) - 1] < v.labels[rk1(v.bits, p2) - 1]);
}

/// The child block of a node in range is itself in range, past the node.
pub proof fn lemma_child_block<V>(v: TrieView<V>, n: int)
    requires
        wf(v),
        1 <= n <= nnodes(v),
    ensures
        n + 1 <= cs(v, n),
        cs(v, n) <= ce(v, n) <= nnodes(v) + 1,
    decreases 0int,
{
    lemma_cs_facts(v, n);
    lemma_cs_mono(v, n + 1, nnodes(v) + 1);
}

/// If some child of `n` carries label `c`, `child_of` is its unique number.
pub proof fn lemma_child_char<V>(v: TrieView<V>, n: int, m: int, c: u8)
    requires
        wf(v),
        1 <= n <= nnodes(v),
        cs(v, n) <= m < ce(v, n),
        lab(v, m) == c,
    ensures
        has_child(v, n, c),
        child_of(v, n, c) == m,
{
    let m2 = child_of(v, n, c);
    assert(cs(v, n) <= m2 < ce(v, n) && lab(v, m2) == c);
    if m2 != m {
        if m < m2 {
            lemma_block_sorted(v, n, m, m2);
        } else {
            lemma_block_sorted(v, n, m2, m);
        }
    }
}

/// Nodes reached by a walk stay in range.
pub proof fn lemma_walk_range<V>(v: TrieView<V>, n: int, q: Seq<u8>)
    requires
        wf(v),
        1 <= n <= nnodes(v),
        walk_from(v, n, q) is Some,
    ensures
        1 <= walk_from(v, n, q)->0 <= nnodes(v),
        q.len() > 0 ==> 2 <= walk_from(v, n, q)->0,
    decreases q.len(),
{
    if q.len() > 0 {
        let m = child_of(v, n, q[0]);
        assert(cs(v, n) <= m < ce(v, n));
        lemma_child_block(v, n);
        lemma_walk_range(v, m, q.drop_first());
        if q.drop_first().len() == 0 {
            assert(walk_from(v, n, q)->0 == m);
        }
    }
}

/// A terminal node's value index lands inside the dense value array.
pub proof fn lemma_val_idx<V>(v: TrieView<V>, m: int)
    requires
        wf(v),
        1 <= m <= nnodes(v),
        is_term(v, m),
    ensures
        0 <= val_idx(v, m) < v.vals.len(),
{
    lemma_rkb_bounds(v.terms, true, m);
    assert(rk1(v.terms, m + 1) == rk1(v.terms, m) + 1);
    lemma_rkb_mono(v.terms, true, m + 1, v.terms.len() as int);
}

/// A well-formed trie has at least its root node.
pub proof fn lemma_root_node<V>(v: TrieView<V>)
    requires
        wf(v),
    ensures
        nnodes(v) >= 1,
{
    assert(rkb(v.bits, true, 0) == 0);
    assert(rk1(v.bits, 1) == 1);
    lemma_rkb_mono(v.bits, true, 1, v.bits.len() as int);
}

/// Keys among the prefixes of `q` shorter than `i`, shortest first.
pub open spec fn cps_upto<V>(v: TrieView<V>, q: Seq<u8>, i: int) -> Seq<Seq<u8>>
    decreases i,
{
    if i <= 0 {
        Seq::empty()
    } else {
        cps_upto(v, q, i - 1) + if has_key(v, q.take(i - 1)) {
            seq![q.take(i - 1)]
        } else {
            Seq::empty()
        }
    }
}

/// The keys of the trie that are prefixes of `q`, ordered by length.
pub open spec fn prefix_keys<V>(v: TrieView<V>, q: Seq<u8>) -> Seq<Seq<u8>> {
    cps_upto(v, q, q.len() as int + 1)
}

/// The suffixes past `q` of all keys extending `q`, in traversal order.
pub open spec fn postfix_keys<V>(v: TrieView<V>, q: Seq<u8>) -> Seq<Seq<u8>> {
    match walk(v, q) {
        Some(n) => sub_keys(v, n),
        None => Seq::empty(),
    }
}

/// All keys of the trie that have `q` as a prefix, in lexicographic order.
pub open spec fn predictive_keys<V>(v: TrieView<V>, q: Seq<u8>) -> Seq<Seq<u8>> {
    postfix_keys(v, q).map_values(|s: Seq<u8>| q + s)
}

/// All keys of the trie, in lexicographic order.
pub open spec fn all_keys<V>(v: TrieView<V>) -> Seq<Seq<u8>> {
    sub_keys(v, 1)
}

/// Appending a bit keeps every closed run properly balanced, provided the
/// sequence does not end in a run-closing bit that is still unbalanced.
pub proof fn lemma_zeros_strict_push(s: Seq<bool>, x: bool)
    requires
        zeros_strict(s),
        s.len() > 0 && !s[s.len() - 1] ==> rk1(s, s.len() - 1) >= rk0(s, s.len() - 1) + 1,
    ensures
        zeros_strict(s.push(x)),
{
    let s2 = s.push(x);
    assert forall|i: int|
        0 <= i < s2.len() && !(#[trigger] s2[i]) implies rk1(s2, i) >= rk0(s2, i) + 1 || i
        == s2.len() - 1 by {
        if i < s.len() {
            lemma_rkb_push(s, true, x, i);
            lemma_rkb_push(s, false, x, i);
            assert(s2[i] == s[i]);
        }
    }
}

/// Appending a run-closing bit never breaks label ordering.
pub proof fn lemma_sorted_runs_push_false(s: Seq<bool>, l: Seq<u8>)
    requires
        sorted_runs(s, l),
    ensures
        sorted_runs(s.push(false), l),
{
    let s2 = s.push(false);
    assert forall|p: int, q: int|
        1 <= p < q < s2.len() && s2[p] && s2[q] && #[trigger] all_ones_between(s2, p, q) implies l[
        rk1(s2, p) - 1] < l[rk1(s2, q) - 1] by {
        assert(q < s.len());
        assert(all_ones_between(s, p, q)) by {
            assert(forall|r: int| p < r < q ==> s[r] == s2[r]);
        }
        lemma_rkb_push(s, true, false, p);
        lemma_rkb_push(s, true, false, q);
        assert(s[p] && s[q]);
    }
}

/// Appending a set bit whose label exceeds every label of the open run keeps
/// the labels of each run sorted.
pub proof fn lemma_sorted_runs_push_true(s: Seq<bool>, l: Seq<u8>, c: u8, z: int)
    requires
        sorted_runs(s, l),
        s.len() > 0,
        s[0],
        0 <= z < s.len(),
        !s[z],
        forall|r: int| z < r < s.len() ==> s[r],
        l.len() == rk1(s, s.len() as int) - 1,
        forall|u: int| z < u < s.len() ==> l[rk1(s, u) - 1] < c,
    ensures
        sorted_runs(s.push(true), l.push(c)),
{
    let s2 = s.push(true);
    let l2 = l.push(c);
    assert forall|p: int, q: int|
        1 <= p < q < s2.len() && s2[p] && s2[q] && #[trigger] all_ones_between(s2, p, q) implies l2[
        rk1(s2, p) - 1] < l2[rk1(s2, q) - 1] by {
        lemma_rkb_push(s, true, true, p);
        if q < s.len() {
            lemma_rkb_push(s, true, true, q);
            assert(all_ones_between(s, p, q)) by {
                assert(forall|r: int| p < r < q ==> s[r] == s2[r]);
            }
            assert(s[p] && s[q]);
            assert(l[rk1(s, p) - 1] < l[rk1(s, q) - 1]);
            assert(rk1(s, p) >= 1 && rk1(s, q) > rk1(s, p)) by {
                assert(rkb(s, true, 0) == 0);
                assert(rk1(s, 1) == 1);
                lemma_rkb_mono(s, true, 1, p);
                lemma_rkb_mono(s, true, p + 1, q);
                assert(rk1(s, p + 1) == rk1(s, p) + 1);
            }
            assert(rk1(s, q) < rk1(s, s.len() as int)) by {
                lemma_rkb_mono(s, true, q + 1, s.len() as int);
                assert(rk1(s, q + 1) == rk1(s, q) + 1);
            }
            assert(l2[rk1(s, p) - 1] == l[rk1(s, p) - 1]);
            assert(l2[rk1(s, q) - 1] == l[rk1(s, q) - 1]);
        } else {
            assert(q == s.len());
            assert(p != z) by {
                assert(s2[p] == s[p]);
            }
            assert(z < p) by {
                if p < z {
                    assert(s2[z]);
                }
            }
            assert(s[p]);
            assert(l[rk1(s, p) - 1] < c);
            assert(rk1(s, p) >= 1) by {
                assert(rkb(s, true, 0) == 0);
                assert(rk1(s, 1) == 1);
                lemma_rkb_mono(s, true, 1, p);
            }
            assert(rk1(s, p) < rk1(s, s.len() as int)) by {
                lemma_rkb_mono(s, true, p + 1, s.len() as int);
                assert(rk1(s, p + 1) == rk1(s, p) + 1);
            }
            assert(l2[rk1(s2, p) - 1] == l[rk1(s, p) - 1]);
            assert(rk1(s2, q) == rk1(s, s.len() as int)) by {
                lemma_rkb_push(s, true, true, s.len() as int);
            }
            assert(l2[rk1(s2, q) - 1] == c);
        }
    }
}

/// A walk over one more label steps through the child carrying it.
pub proof fn lemma_walk_snoc<V>(v: TrieView<V>, n: int, s: Seq<u8>, c: u8)
    ensures
        walk_from(v, n, s.push(c)) == match walk_from(v, n, s) {
            Some(m) => if has_child(v, m, c) {
                Some(child_of(v, m, c))
            } else {
                None
            },
            None => None::<int>,
        },
    decreases s.len(),
{
    let sc = s.push(c);
    if s.len() == 0 {
        assert(sc.len() == 1 && sc[0] == c);
        assert(sc.drop_first() =~= Seq::<u8>::empty());
        if has_child(v, n, c) {
            assert(walk_from(v, child_of(v, n, c), Seq::<u8>::empty()) == Some(
                child_of(v, n, c),
            ));
            assert(walk_from(v, n, sc) == Some(child_of(v, n, c)));
        }
    } else {
        assert(sc[0] == s[0]);
        assert(sc.drop_first() =~= s.drop_first().push(c));
        if has_child(v, n, s[0]) {
            lemma_walk_snoc(v, child_of(v, n, s[0]), s.drop_first(), c);
        }
    }
}

/// Suffix sequences of all keys stored in the subtree rooted at `n`, in the
/// order a depth-first, label-ordered traversal yields them.
pub open spec fn sub_keys<V>(v: TrieView<V>, n: int) -> Seq<Seq<u8>>
    decreases nnodes(v) - n, 0int,
{
    let own: Seq<Seq<u8>> = if is_term(v, n) {
        seq![Seq::<u8>::empty()]
    } else {
        Seq::empty()
    };
    own + if n < cs(v, n) && cs(v, n) < ce(v, n) && ce(v, n) <= nnodes(v) + 1 {
        range_keys(v, cs(v, n), ce(v, n))
    } else {
        Seq::empty()
    }
}

/// Keys of the subtrees of nodes `[a, b)`, each prefixed with its own label.
pub open spec fn range_keys<V>(v: TrieView<V>, a: int, b: int) -> Seq<Seq<u8>>
    decreases nnodes(v) - a, b - a + 1,
{
    if a >= b || b > nnodes(v) + 1 || a < 1 {
        Seq::empty()
    } else {
        sub_keys(v, a).map_values(|s: Seq<u8>| seq![lab(v, a)].add(s)) + if a + 1 < b {
            range_keys(v, a + 1, b)
        } else {
            Seq::empty()
        }
    }
}

/// Concatenating two adjacent child windows concatenates their keys.
pub proof fn lemma_range_split<V>(v: TrieView<V>, a: int, m: int, b: int)
    requires
        1 <= a <= m <= b <= nnodes(v) + 1,
    ensures
        range_keys(v, a, b) == range_keys(v, a, m) + range_keys(v, m, b),
    decreases m - a,
{
    if a == m {
        assert(range_keys(v, a, m) == Seq::<Seq<u8>>::empty());
        assert(range_keys(v, a, b) =~= range_keys(v, a, m) + range_keys(v, m, b));
    } else {
        lemma_range_split(v, a + 1, m, b);
        if a + 1 == m && m == b {
            assert(range_keys(v, a, b) =~= range_keys(v, a, m) + range_keys(v, m, b));
        } else {
            assert(range_keys(v, a, b) =~= range_keys(v, a, m) + range_keys(v, m, b));
        }
    }
}

/// Unfolding `sub_keys` at a well-formed node.
pub proof fn lemma_sub_keys_unfold<V>(v: TrieView<V>, n: int)
    requires
        wf(v),
        1 <= n <= nnodes(v),
    ensures
        sub_keys(v, n) == (if is_term(v, n) {
            seq![Seq::<u8>::empty()]
        } else {
            Seq::<Seq<u8>>::empty()
        }) + range_keys(v, cs(v, n), ce(v, n)),
{
    lemma_child_block(v, n);
    if !(cs(v, n) < ce(v, n)) {
        assert(range_keys(v, cs(v, n), ce(v, n)) == Seq::<Seq<u8>>::empty());
    }
}

/// Strict lexicographic order on label sequences: a proper prefix comes
/// first, otherwise the first differing label decides.
pub open spec fn lex_lt(x: Seq<u8>, y: Seq<u8>) -> bool
    decreases x.len(),
{
    if x.len() == 0 {
        y.len() > 0
    } else if y.len() == 0 {
        false
    } else if x[0] < y[0] {
        true
    } else if x[0] > y[0] {
        false
    } else {
        lex_lt(x.drop_first(), y.drop_first())
    }
}

/// Prepending one shared label keeps the order.
pub proof fn lemma_lex_prepend(c: u8, s: Seq<u8>, t: Seq<u8>)
    requires
        lex_lt(s, t),
    ensures
        lex_lt(seq![c].add(s), seq![c].add(t)),
{
    let x = seq![c].add(s);
    let y = seq![c].add(t);
    assert(x[0] == c && y[0] == c);
    assert(x.drop_first() =~= s);
    assert(y.drop_first() =~= t);
}

/// A smaller head label decides the order outright.
pub proof fn lemma_lex_head(c: u8, d: u8, s: Seq<u8>, t: Seq<u8>)
    requires
        c < d,
    ensures
        lex_lt(seq![c].add(s), seq![d].add(t)),
{
    let x = seq![c].add(s);
    let y = seq![d].add(t);
    assert(x[0] == c && y[0] == d);
}

/// Prepending a whole sequence keeps the order.
pub proof fn lemma_lex_prepend_seq(q: Seq<u8>, s: Seq<u8>, t: Seq<u8>)
    requires
        lex_lt(s, t),
    ensures
        lex_lt(q + s, q + t),
    decreases q.len(),
{
    if q.len() == 0 {
        assert(q + s =~= s);
        assert(q + t =~= t);
    } else {
        lemma_lex_prepend_seq(q.drop_first(), s, t);
        let x = q + s;
        let y = q + t;
        assert(x.len() > 0 && y.len() > 0);
        assert(x[0] == q[0] && y[0] == q[0]);
        assert(x.drop_first() =~= q.drop_first() + s);
        assert(y.drop_first() =~= q.drop_first() + t);
    }
}

/// A walk over a concatenation runs the two halves in turn.
pub proof fn lemma_walk_concat<V>(v: TrieView<V>, n: int, a: Seq<u8>, b: Seq<u8>)
    ensures
        walk_from(v, n, a + b) == match walk_from(v, n, a) {
            Some(m) => walk_from(v, m, b),
            None => None::<int>,
        },
    decreases a.len(),
{
    if a.len() == 0 {
        assert(a + b =~= b);
    } else {
        let ab = a + b;
        assert(ab.len() > 0 && ab[0] == a[0]);
        assert(ab.drop_first() =~= a.drop_first() + b);
        if has_child(v, n, a[0]) {
            lemma_walk_concat(v, child_of(v, n, a[0]), a.drop_first(), b);
        }
    }
}

/// The subtree enumeration below `n` yields exactly the suffixes whose walk
/// from `n` ends on a terminal node.
pub proof fn lemma_sub_keys_exact<V>(v: TrieView<V>, n: int)
    requires
        wf(v),
        1 <= n <= nnodes(v),
    ensures
        forall|s: Seq<u8>|
            #[trigger] sub_keys(v, n).contains(s) <==> (walk_from(v, n, s) matches Some(m)
                && is_term(v, m)),
    decreases nnodes(v) - n, 0int,
{
    lemma_sub_keys_unfold(v, n);
    lemma_child_block(v, n);
    if cs(v, n) < ce(v, n) {
        lemma_range_exact(v, n, cs(v, n), ce(v, n));
    }
    let own: Seq<Seq<u8>> = if is_term(v, n) {
        seq![Seq::<u8>::empty()]
    } else {
        Seq::empty()
    };
    let rng = range_keys(v, cs(v, n), ce(v, n));
    assert(sub_keys(v, n) == own + rng);
    assert forall|s: Seq<u8>| #[trigger] sub_keys(v, n).contains(s) implies (walk_from(v, n, s)
        matches Some(m) && is_term(v, m)) by {
        let x = choose|x: int| 0 <= x < sub_keys(v, n).len() && sub_keys(v, n)[x] == s;
        if x < own.len() {
            assert(s == Seq::<u8>::empty());
        } else {
            assert(rng[x - own.len()] == s);
            assert(rng.contains(s));
            let c = choose|c: int|
                cs(v, n) <= c < ce(v, n) && lab(v, c) == s[0] && (walk_from(v, c, s.drop_first())
                    matches Some(m) && is_term(v, m));
            lemma_child_char(v, n, c, s[0]);
        }
    }
    assert forall|s: Seq<u8>| (walk_from(v, n, s) matches Some(m) && is_term(v, m))
        implies #[trigger] sub_keys(v, n).contains(s) by {
        if s.len() == 0 {
            assert(walk_from(v, n, s) == Some(n));
            assert(own[0] == s);
            assert(sub_keys(v, n)[0] == s);
        } else {
            assert(has_child(v, n, s[0]));
            let c = child_of(v, n, s[0]);
            assert(cs(v, n) <= c < ce(v, n) && lab(v, c) == s[0]);
            assert(walk_from(v, c, s.drop_first()) is Some && is_term(
                v,
                walk_from(v, c, s.drop_first())->0,
            ));
            assert(rng.contains(s));
            let x = choose|x: int| 0 <= x < rng.len() && rng[x] == s;
            assert(sub_keys(v, n)[own.len() + x] == s);
        }
    }
}

/// Membership in a child window's enumeration: a head label naming a child
/// in the window, and a terminal walk below that child.
proof fn lemma_range_exact<V>(v: TrieView<V>, n: int, a: int, b: int)
    requires
        wf(v),
        1 <= n <= nnodes(v),
        cs(v, n) <= a <= b <= ce(v, n),
    ensures
        forall|s: Seq<u8>|
            #[trigger] range_keys(v, a, b).contains(s) <==> (s.len() > 0 && exists|c: int|
                a <= c < b && lab(v, c) == s[0] && (walk_from(v, c, s.drop_first()) matches Some(m)
                    && is_term(v, m))),
    decreases nnodes(v) - a, b - a + 1,
{
    lemma_child_block(v, n);
    if a >= b {
        assert(range_keys(v, a, b) == Seq::<Seq<u8>>::empty());
    } else {
        lemma_block_member(v, n, a);
        lemma_cs_facts(v, n);
        lemma_sub_keys_exact(v, a);
        if a + 1 < b {
            lemma_range_exact(v, n, a + 1, b);
        }
        let mapped = sub_keys(v, a).map_values(|s: Seq<u8>| seq![lab(v, a)].add(s));
        let tail: Seq<Seq<u8>> = if a + 1 < b {
            range_keys(v, a + 1, b)
        } else {
            Seq::empty()
        };
        assert(range_keys(v, a + 1, b) == tail);
        assert(range_keys(v, a, b) == mapped + tail);
        assert forall|s: Seq<u8>| #[trigger] range_keys(v, a, b).contains(s) implies (s.len() > 0
            && exists|c: int|
            a <= c < b && lab(v, c) == s[0] && (walk_from(v, c, s.drop_first()) matches Some(m)
                && is_term(v, m))) by {
            let x = choose|x: int|
                0 <= x < range_keys(v, a, b).len() && range_keys(v, a, b)[x] == s;
            if x < mapped.len() {
                let inner = sub_keys(v, a)[x];
                assert(mapped[x] == seq![lab(v, a)].add(inner));
                assert(s == seq![lab(v, a)].add(inner));
                assert(s.drop_first() =~= inner);
                assert(sub_keys(v, a).contains(inner));
                assert(a <= a < b && lab(v, a) == s[0] && (walk_from(v, a, s.drop_first())
                    matches Some(m) && is_term(v, m)));
            } else {
                assert(tail[x - mapped.len()] == s);
                assert(range_keys(v, a + 1, b).contains(s));
            }
        }
        assert forall|s: Seq<u8>| (s.len() > 0 && exists|c: int|
            a <= c < b && lab(v, c) == s[0] && (walk_from(v, c, s.drop_first()) matches Some(m)
                && is_term(v, m))) implies #[trigger] range_keys(v, a, b).contains(s) by {
            let c = choose|c: int|
                a <= c < b && lab(v, c) == s[0] && (walk_from(v, c, s.drop_first()) matches Some(m)
                    && is_term(v, m));
            if c == a {
                assert(sub_keys(v, a).contains(s.drop_first()));
                let x = choose|x: int|
                    0 <= x < sub_keys(v, a).len() && sub_keys(v, a)[x] == s.drop_first();
                assert(mapped[x] == seq![lab(v, a)].add(s.drop_first()));
                assert(seq![lab(v, a)].add(s.drop_first()) =~= s);
                assert(range_keys(v, a, b)[x] == s);
            } else {
                assert(tail.contains(s));
                let x = choose|x: int| 0 <= x < tail.len() && tail[x] == s;
                assert(range_keys(v, a, b)[mapped.len() + x] == s);
            }
        }
    }
}

/// The subtree enumeration is strictly lexicographically sorted; in
/// particular it yields each suffix at most once.
pub proof fn lemma_sub_keys_sorted<V>(v: TrieView<V>, n: int)
    requires
        wf(v),
        1 <= n <= nnodes(v),
    ensures
        forall|i: int, j: int|
            0 <= i < j < sub_keys(v, n).len() ==> lex_lt(sub_keys(v, n)[i], sub_keys(v, n)[j]),
    decreases nnodes(v) - n, 0int,
{
    lemma_sub_keys_unfold(v, n);
    lemma_child_block(v, n);
    if cs(v, n) < ce(v, n) {
        lemma_range_sorted(v, n, cs(v, n), ce(v, n));
    }
    let own: Seq<Seq<u8>> = if is_term(v, n) {
        seq![Seq::<u8>::empty()]
    } else {
        Seq::empty()
    };
    let rng = range_keys(v, cs(v, n), ce(v, n));
    assert(sub_keys(v, n) == own + rng);
    assert forall|i: int, j: int| 0 <= i < j < sub_keys(v, n).len() implies lex_lt(
        sub_keys(v, n)[i],
        sub_keys(v, n)[j],
    ) by {
        if i < own.len() {
            assert(sub_keys(v, n)[i] == Seq::<u8>::empty());
            assert(sub_keys(v, n)[j] == rng[j - own.len()]);
            assert(rng[j - own.len()].len() > 0);
        } else {
            assert(sub_keys(v, n)[i] == rng[i - own.len()]);
            assert(sub_keys(v, n)[j] == rng[j - own.len()]);
        }
    }
}

/// Order within a child window: inside one subtree by induction, across
/// subtrees by the strictly increasing sibling labels.
proof fn lemma_range_sorted<V>(v: TrieView<V>, n: int, a: int, b: int)
    requires
        wf(v),
        1 <= n <= nnodes(v),
        cs(v, n) <= a <= b <= ce(v, n),
    ensures
        forall|i: int, j: int|
            0 <= i < j < range_keys(v, a, b).len() ==> lex_lt(
                range_keys(v, a, b)[i],
                range_keys(v, a, b)[j],
            ),
        forall|i: int|
            0 <= i < range_keys(v, a, b).len() ==> (#[trigger] range_keys(v, a, b)[i].len() > 0
                && exists|c: int| a <= c < b && range_keys(v, a, b)[i][0] == lab(v, c)),
    decreases nnodes(v) - a, b - a + 1,
{
    lemma_child_block(v, n);
    if a >= b {
        assert(range_keys(v, a, b) == Seq::<Seq<u8>>::empty());
    } else {
        lemma_block_member(v, n, a);
        lemma_cs_facts(v, n);
        lemma_sub_keys_sorted(v, a);
        if a + 1 < b {
            lemma_range_sorted(v, n, a + 1, b);
        }
        let mapped = sub_keys(v, a).map_values(|s: Seq<u8>| seq![lab(v, a)].add(s));
        let tail: Seq<Seq<u8>> = if a + 1 < b {
            range_keys(v, a + 1, b)
        } else {
            Seq::empty()
        };
        assert(range_keys(v, a + 1, b) == tail);
        assert(range_keys(v, a, b) == mapped + tail);
        assert forall|i: int| 0 <= i < range_keys(v, a, b).len() implies (#[trigger] range_keys(
            v,
            a,
            b,
        )[i].len() > 0 && exists|c: int| a <= c < b && range_keys(v, a, b)[i][0] == lab(v, c)) by {
            if i < mapped.len() {
                assert(range_keys(v, a, b)[i] == seq![lab(v, a)].add(sub_keys(v, a)[i]));
                assert(a <= a < b && range_keys(v, a, b)[i][0] == lab(v, a));
            } else {
                assert(range_keys(v, a, b)[i] == tail[i - mapped.len()]);
                let c = choose|c: int|
                    a + 1 <= c < b && #[trigger] lab(v, c) == tail[i - mapped.len()][0];
                assert(a <= c < b && range_keys(v, a, b)[i][0] == lab(v, c));
            }
        }
        assert forall|i: int, j: int| 0 <= i < j < range_keys(v, a, b).len() implies lex_lt(
            range_keys(v, a, b)[i],
            range_keys(v, a, b)[j],
        ) by {
            if j < mapped.len() {
                assert(range_keys(v, a, b)[i] == seq![lab(v, a)].add(sub_keys(v, a)[i]));
                assert(range_keys(v, a, b)[j] == seq![lab(v, a)].add(sub_keys(v, a)[j]));
                lemma_lex_prepend(lab(v, a), sub_keys(v, a)[i], sub_keys(v, a)[j]);
            } else if i >= mapped.len() {
                assert(range_keys(v, a, b)[i] == tail[i - mapped.len()]);
                assert(range_keys(v, a, b)[j] == tail[j - mapped.len()]);
            } else {
                assert(range_keys(v, a, b)[i] == seq![lab(v, a)].add(sub_keys(v, a)[i]));
                assert(range_keys(v, a, b)[j] == tail[j - mapped.len()]);
                let c = choose|c: int|
                    a + 1 <= c < b && #[trigger] lab(v, c) == tail[j - mapped.len()][0];
                lemma_block_sorted(v, n, a, c);
                let y = range_keys(v, a, b)[j];
                assert(y =~= seq![y[0]].add(y.drop_first()));
                lemma_lex_head(lab(v, a), y[0], sub_keys(v, a)[i], y.drop_first());
            }
        }
    }
}

/// No branch of the encoded tree dangles: every childless real node is
/// terminal. Tries produced by the builder always satisfy this; arrays
/// assembled by hand need not.
pub open spec fn no_bare_leaf<V>(v: TrieView<V>) -> bool {
    forall|m: int| 2 <= m <= nnodes(v) && cs(v, m) == ce(v, m) ==> is_term(v, m)
}

/// Below any real node of a dangling-free trie some terminal node lies:
/// descend along first children until one is reached.
pub proof fn lemma_subtree_has_key<V>(v: TrieView<V>, n: int)
    requires
        wf(v),
        no_bare_leaf(v),
        2 <= n <= nnodes(v),
    ensures
        exists|s: Seq<u8>|
            (#[trigger] walk_from(v, n, s)) matches Some(m) && is_term(v, m),
    decreases nnodes(v) - n,
{
    if is_term(v, n) {
        assert(walk_from(v, n, Seq::<u8>::empty()) == Some(n));
    } else {
        lemma_cs_facts(v, n);
        lemma_child_block(v, n);
        assert(cs(v, n) < ce(v, n));
        let c = cs(v, n);
        lemma_block_member(v, n, c);
        lemma_child_char(v, n, c, lab(v, c));
        lemma_subtree_has_key(v, c);
        let s0 = choose|s0: Seq<u8>|
            (#[trigger] walk_from(v, c, s0)) matches Some(m) && is_term(v, m);
        let s = seq![lab(v, c)].add(s0);
        assert(s.len() > 0 && s[0] == lab(v, c));
        assert(s.drop_first() =~= s0);
        assert(walk_from(v, n, s) == walk_from(v, c, s0));
    }
}

/// The lexicographic order is irreflexive.
pub proof fn lemma_lex_irrefl(x: Seq<u8>)
    ensures
        !lex_lt(x, x),
    decreases x.len(),
{
    if x.len() > 0 {
        lemma_lex_irrefl(x.drop_first());
    }
}

/// The lexicographic order is asymmetric.
pub proof fn lemma_lex_asym(x: Seq<u8>, y: Seq<u8>)
    requires
        lex_lt(x, y),
    ensures
        !lex_lt(y, x),
    decreases x.len(),
{
    if x.len() > 0 && y.len() > 0 && x[0] == y[0] {
        lemma_lex_asym(x.drop_first(), y.drop_first());
    }
}

/// Any two label sequences compare: the order is total.
pub proof fn lemma_lex_total(x: Seq<u8>, y: Seq<u8>)
    ensures
        lex_lt(x, y) || lex_lt(y, x) || x == y,
    decreases x.len(),
{
    if x.len() == 0 {
        if y.len() == 0 {
            assert(x =~= y);
        }
    } else if y.len() == 0 {
    } else if x[0] == y[0] {
        lemma_lex_total(x.drop_first(), y.drop_first());
        if x.drop_first() == y.drop_first() {
            assert forall|i: int| 0 <= i < x.len() implies x[i] == y[i] by {
                if i > 0 {
                    assert(x.drop_first()[i - 1] == x[i]);
                    assert(y.drop_first()[i - 1] == y[i]);
                }
            }
            assert(x.drop_first().len() == x.len() - 1);
            assert(y.drop_first().len() == y.len() - 1);
            assert(x =~= y);
        }
    }
}

/// Two strictly sorted sequences with the same members are identical.
pub proof fn lemma_sorted_unique(xs: Seq<Seq<u8>>, ys: Seq<Seq<u8>>)
    requires
        forall|i: int, j: int| 0 <= i < j < xs.len() ==> lex_lt(#[trigger] xs[i], #[trigger] xs[j]),
        forall|i: int, j: int| 0 <= i < j < ys.len() ==> lex_lt(#[trigger] ys[i], #[trigger] ys[j]),
        forall|k: Seq<u8>| #[trigger] xs.contains(k) <==> ys.contains(k),
    ensures
        xs == ys,
    decreases xs.len(),
{
    if xs.len() == 0 {
        if ys.len() > 0 {
            assert(ys.contains(ys[0]));
            assert(xs.contains(ys[0]));
            assert(false);
        }
        assert(xs =~= ys);
    } else {
        assert(xs.contains(xs[0]));
        assert(ys.contains(xs[0]));
        assert(ys.len() > 0) by {
            let j = choose|j: int| 0 <= j < ys.len() && ys[j] == xs[0];
        }
        let j = choose|j: int| 0 <= j < ys.len() && ys[j] == xs[0];
        assert(ys.contains(ys[0]));
        assert(xs.contains(ys[0]));
        let i = choose|i: int| 0 <= i < xs.len() && xs[i] == ys[0];
        assert(xs[0] == ys[0]) by {
            lemma_lex_irrefl(xs[0]);
            if i > 0 && j > 0 {
                assert(lex_lt(xs[0], xs[i]));
                assert(lex_lt(ys[0], ys[j]));
                lemma_lex_asym(xs[0], ys[0]);
            } else if i > 0 {
                assert(lex_lt(xs[0], xs[i]));
            } else if j > 0 {
                assert(lex_lt(ys[0], ys[j]));
            }
        }
        let xt = xs.drop_first();
        let yt = ys.drop_first();
        assert forall|k: Seq<u8>| #[trigger] xt.contains(k) implies yt.contains(k) by {
            let a = choose|a: int| 0 <= a < xt.len() && xt[a] == k;
            assert(xt[a] == xs[a + 1]);
            assert(xs.contains(k));
            assert(ys.contains(k));
            let b = choose|b: int| 0 <= b < ys.len() && ys[b] == k;
            assert(b > 0) by {
                if b == 0 {
                    assert(lex_lt(xs[0], xs[a + 1]));
                    lemma_lex_irrefl(xs[0]);
                }
            }
            assert(yt[b - 1] == k);
        }
        assert forall|k: Seq<u8>| #[trigger] yt.contains(k) implies xt.contains(k) by {
            let a = choose|a: int| 0 <= a < yt.len() && yt[a] == k;
            assert(yt[a] == ys[a + 1]);
            assert(ys.contains(k));
            assert(xs.contains(k));
            let b = choose|b: int| 0 <= b < xs.len() && xs[b] == k;
            assert(b > 0) by {
                if b == 0 {
                    assert(lex_lt(ys[0], ys[a + 1]));
                    lemma_lex_irrefl(ys[0]);
                }
            }
            assert(xt[b - 1] == k);
        }
        assert forall|i2: int, j2: int| 0 <= i2 < j2 < xt.len() implies lex_lt(
            #[trigger] xt[i2],
            #[trigger] xt[j2],
        ) by {
            assert(xt[i2] == xs[i2 + 1] && xt[j2] == xs[j2 + 1]);
        }
        assert forall|i2: int, j2: int| 0 <= i2 < j2 < yt.len() implies lex_lt(
            #[trigger] yt[i2],
            #[trigger] yt[j2],
        ) by {
            assert(yt[i2] == ys[i2 + 1] && yt[j2] == ys[j2 + 1]);
        }
        lemma_sorted_unique(xt, yt);
        assert forall|r: int| 0 <= r < xs.len() implies xs[r] == ys[r] by {
            if r > 0 {
                assert(xt[r - 1] == xs[r]);
                assert(yt[r - 1] == ys[r]);
            }
        }
        assert(xs.len() == ys.len());
        assert(xs =~= ys);
    }
}

} // verus!
