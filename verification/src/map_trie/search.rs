//! Read-only navigation and search over the encoded arrays: child lookup by
//! binary search inside a child block, and the walk that consumes a query
//! label by label.

use super::Trie;
use crate::bits::{
    bv_get, bv_model, bv_rank1, bv_select0, lemma_rk_sum, lemma_rkb_bounds, rk1,
};
use crate::louds::{
    all_keys, ce, child_of, cps_upto, cs, has_child, has_key, is_term, key_val, lab,
    lemma_block_member, lemma_block_sorted, lemma_child_char, lemma_cs_facts,
    lemma_cs_mono, lemma_range_split, lemma_sub_keys_unfold, lemma_val_idx, lemma_walk_snoc,
    lemma_zpos, lemma_zpos_mono, nnodes, postfix_keys, predictive_keys, prefix_keys, range_keys,
    sub_keys, walk, walk_from,
};
use vstd::prelude::*;

verus! {

/// A walk that has already failed on a prefix fails on the whole query.
pub proof fn lemma_walk_extend<V>(v: crate::louds::TrieView<V>, q: Seq<u8>, i: int)
    requires
        0 <= i <= q.len(),
        walk_from(v, 1, q.take(i)) is None,
    ensures
        walk_from(v, 1, q) is None,
    decreases q.len() - i,
{
    if i == q.len() {
        assert(q.take(i) =~= q);
    } else {
        lemma_walk_snoc(v, 1, q.take(i), q[i]);
        assert(q.take(i + 1) =~= q.take(i).push(q[i]));
        lemma_walk_extend(v, q, i + 1);
    }
}

impl<V> Trie<V> {
    /// The window `[r.0, r.1)` of child numbers of node `n`.
    fn child_range(&self, n: u64) -> (r: (u64, u64))
        requires
            self.wf(),
            1 <= n as int <= nnodes(self@),
        ensures
            r.0 as int == cs(self@, n as int),
            r.1 as int == ce(self@, n as int),
            r.0 <= r.1,
            n < r.0,
            r.1 as int <= nnodes(self@) + 1,
    {
        proof {
            lemma_rk_sum(self@.bits, self@.bits.len() as int);
            lemma_zpos(self@, n as int);
            lemma_zpos(self@, n as int + 1);
            lemma_zpos_mono(self@, n as int, n as int + 1);
        }
        let z1 = bv_select0(&self.louds, n - 1);
        let z2 = bv_select0(&self.louds, n);
        proof {
            lemma_rkb_bounds(self@.bits, true, z1 as int);
            lemma_rk_sum(self@.bits, z2 as int);
            lemma_cs_facts(self@, n as int);
            lemma_cs_facts(self@, n as int - 1);
            lemma_cs_mono(self@, n as int + 1, nnodes(self@) + 1);
        }
        let f = bv_rank1(&self.louds, z1) + 1;
        let d = z2 - z1 - 1;
        (f, f + d)
    }

    /// Edge label of real node `m`.
    fn get_label(&self, m: u64) -> (r: u8)
        requires
            self.wf(),
            2 <= m as int <= nnodes(self@),
        ensures
            r == lab(self@, m as int),
    {
        proof {
            assert(self@.labels == self.labels@);
            assert(self@.labels.len() == nnodes(self@) - 1);
        }
        let ll = self.labels.len();
        proof {
            assert(ll as int == self@.labels.len());
            assert((m as int - 2) < ll as int);
        }
        self.labels[(m - 2) as usize]
    }

    /// Whether node `m` stores a value.
    pub(crate) fn terminal(&self, m: u64) -> (r: bool)
        requires
            self.wf(),
            1 <= m as int <= nnodes(self@),
        ensures
            r == is_term(self@, m as int),
    {
        proof {
            assert(self@.terms == bv_model(&self.terminals));
            assert(self@.terms.len() == nnodes(self@) + 1);
        }
        bv_get(&self.terminals, m)
    }

    /// Binary search for the child of `n` carrying label `c`.
    pub(crate) fn child_with_label(&self, n: u64, c: u8) -> (r: Option<u64>)
        requires
            self.wf(),
            1 <= n as int <= nnodes(self@),
        ensures
            match r {
                Some(m) => {
                    &&& has_child(self@, n as int, c)
                    &&& m as int == child_of(self@, n as int, c)
                    &&& cs(self@, n as int) <= m as int
                    &&& (m as int) < ce(self@, n as int)
                    &&& 1 <= m as int <= nnodes(self@)
                },
                None => !has_child(self@, n as int, c),
            },
    {
        let (f, e) = self.child_range(n);
        let mut lo = f;
        let mut hi = e;
        while lo < hi
            invariant
                self.wf(),
                1 <= n as int <= nnodes(self@),
                f as int == cs(self@, n as int),
                e as int == ce(self@, n as int),
                f <= lo <= hi <= e,
                forall|m: int| f as int <= m < lo as int ==> lab(self@, m) != c,
                forall|m: int| hi as int <= m < e as int ==> lab(self@, m) != c,
            decreases hi - lo,
        {
            let mid = lo + (hi - lo) / 2;
            proof {
                lemma_block_member(self@, n as int, mid as int);
            }
            let lm = self.get_label(mid);
            if lm < c {
                proof {
                    assert forall|m: int| f as int <= m < mid as int + 1 implies lab(self@, m)
                        != c by {
                        if lo as int <= m < mid as int {
                            lemma_block_sorted(self@, n as int, m, mid as int);
                        }
                    }
                }
                lo = mid + 1;
            } else if c < lm {
                proof {
                    assert forall|m: int| mid as int <= m < e as int implies lab(self@, m) != c by {
                        if (mid as int) < m {
                            lemma_block_sorted(self@, n as int, mid as int, m);
                        }
                    }
                }
                hi = mid;
            } else {
                proof {
                    lemma_child_char(self@, n as int, mid as int, c);
                    lemma_block_member(self@, n as int, mid as int);
                }
                return Some(mid);
            }
        }
        proof {
            if has_child(self@, n as int, c) {
                let m = child_of(self@, n as int, c);
                assert(cs(self@, n as int) <= m < ce(self@, n as int) && lab(self@, m) == c);
            }
        }
        None
    }

    /// Walk the whole query from the root; the node reached, if the path
    /// exists.
    fn walk_to(&self, query: &Vec<u8>) -> (r: Option<u64>)
        requires
            self.wf(),
        ensures
            match r {
                Some(m) => {
                    &&& walk(self@, query@) == Some(m as int)
                    &&& 1 <= m as int <= nnodes(self@)
                },
                None => walk(self@, query@) is None,
            },
    {
        let mut n: u64 = 1;
        let mut i: usize = 0;
        proof {
            assert(query@.take(0) =~= Seq::<u8>::empty());
            assert(nnodes(self@) >= 1) by {
                crate::louds::lemma_last_zero(self@);
                lemma_rkb_bounds(self@.bits, true, self@.bits.len() - 1);
                assert(crate::bits::rkb(self@.bits, true, 0) == 0);
                assert(rk1(self@.bits, 1) == 1);
                crate::bits::lemma_rkb_mono(self@.bits, true, 1, self@.bits.len() as int);
            }
        }
        while i < query.len()
            invariant
                self.wf(),
                1 <= n as int <= nnodes(self@),
                i <= query@.len(),
                walk_from(self@, 1, query@.take(i as int)) == Some(n as int),
            decreases query@.len() - i,
        {
            let c = query[i];
            proof {
                lemma_walk_snoc(self@, 1, query@.take(i as int), c);
                assert(query@.take(i as int + 1) =~= query@.take(i as int).push(c));
            }
            match self.child_with_label(n, c) {
                Some(m) => {
                    n = m;
                    i += 1;
                },
                None => {
                    proof {
                        lemma_walk_extend(self@, query@, i as int + 1);
                    }
                    return None;
                },
            }
        }
        proof {
            assert(query@.take(query@.len() as int) =~= query@);
        }
        Some(n)
    }

    /// The value stored at node `n`, if `n` is terminal.
    pub(crate) fn value_of_node(&self, n: u64) -> (r: Option<&V>)
        requires
            self.wf(),
            1 <= n as int <= nnodes(self@),
        ensures
            is_term(self@, n as int) ==> (r matches Some(x) && *x == crate::louds::node_val(
                self@,
                n as int,
            )),
            !is_term(self@, n as int) ==> r is None,
    {
        if self.terminal(n) {
            proof {
                lemma_val_idx(self@, n as int);
                assert(self@.terms == bv_model(&self.terminals));
                assert(self@.terms.len() == nnodes(self@) + 1);
                assert(self@.vals == self.values@);
            }
            let idx = bv_rank1(&self.terminals, n);
            let vl = self.values.len();
            proof {
                assert(vl as int == self@.vals.len());
                assert(idx as int == crate::louds::val_idx(self@, n as int));
                assert((idx as int) < vl as int);
            }
            Some(&self.values[idx as usize])
        } else {
            None
        }
    }

    /// Return the value stored for `query`, or nothing if `query` is not a
    /// key of the trie.
    pub fn exact_match(&self, query: &Vec<u8>) -> (r: Option<&V>)
        requires
            self.wf(),
        ensures
            has_key(self@, query@) ==> (r matches Some(x) && *x == key_val(self@, query@)),
            !has_key(self@, query@) ==> r is None,
    {
        match self.walk_to(query) {
            Some(n) => self.value_of_node(n),
            None => None,
        }
    }

    /// Create an incremental search bound to this trie.
    pub fn inc_search(&self) -> (r: crate::inc_search::IncSearch<'_, V>)
        requires
            self.wf(),
        ensures
            r.wf(),
            r.live(),
            r.matched() == Seq::<u8>::empty(),
            r.trie_view() == self@,
    {
        crate::inc_search::IncSearch::new(self)
    }

    /// Return true iff `query` is the empty sequence, a key, or a strict
    /// prefix of a path of the trie: the walk does not fall off.
    pub fn is_prefix(&self, query: &Vec<u8>) -> (r: bool)
        requires
            self.wf(),
        ensures
            r == (walk(self@, query@) is Some),
    {
        self.walk_to(query).is_some()
    }

    /// Return the keys that are prefixes of `query`, shortest first.
    pub fn common_prefix_search(&self, query: &Vec<u8>) -> (r: Vec<Vec<u8>>)
        requires
            self.wf(),
        ensures
            r@.map_values(|x: Vec<u8>| x@) == prefix_keys(self@, query@),
    {
        let ghost q = query@;
        let mut out: Vec<Vec<u8>> = Vec::new();
        let mut n: u64 = 1;
        let mut i: usize = 0;
        proof {
            crate::louds::lemma_root_node(self@);
            assert(q.take(0) =~= Seq::<u8>::empty());
            assert(out@.map_values(|x: Vec<u8>| x@) =~= cps_upto(self@, q, 0));
        }
        loop
            invariant
                self.wf(),
                q == query@,
                1 <= n as int <= nnodes(self@),
                i <= q.len(),
                walk_from(self@, 1, q.take(i as int)) == Some(n as int),
                out@.map_values(|x: Vec<u8>| x@) == cps_upto(self@, q, i as int),
            decreases q.len() - i + 1,
        {
            let ghost before = out@.map_values(|x: Vec<u8>| x@);
            if self.terminal(n) {
                let p = prefix_vec(query, i);
                out.push(p);
                proof {
                    assert(out@.map_values(|x: Vec<u8>| x@) =~= before + seq![q.take(i as int)]);
                }
            }
            proof {
                assert(out@.map_values(|x: Vec<u8>| x@) == cps_upto(self@, q, i as int + 1));
            }
            if i == query.len() {
                proof {
                    assert(q.take(i as int) =~= q);
                }
                return out;
            }
            let c = query[i];
            proof {
                lemma_walk_snoc(self@, 1, q.take(i as int), c);
                assert(q.take(i as int + 1) =~= q.take(i as int).push(c));
            }
            match self.child_with_label(n, c) {
                Some(m) => {
                    n = m;
                    i += 1;
                },
                None => {
                    proof {
                        lemma_cps_frozen(self@, q, i as int + 2, q.len() as int + 1);
                        assert(q.take(i as int + 1).take(i as int + 1) =~= q.take(i as int + 1));
                        assert(!has_key(self@, q.take(i as int + 1)));
                        assert(cps_upto(self@, q, i as int + 2) =~= cps_upto(
                            self@,
                            q,
                            i as int + 1,
                        ));
                    }
                    return out;
                },
            }
        }
    }

    /// Return the longest key that is a prefix of `query`, if any key is.
    pub fn longest_prefix(&self, query: &Vec<u8>) -> (r: Option<Vec<u8>>)
        requires
            self.wf(),
        ensures
            r is Some <==> prefix_keys(self@, query@).len() > 0,
            r matches Some(x) ==> x@ == prefix_keys(self@, query@).last(),
    {
        let mut ps = self.common_prefix_search(query);
        let ghost views = ps@.map_values(|x: Vec<u8>| x@);
        let r = ps.pop();
        proof {
            if views.len() > 0 {
                assert(views[views.len() - 1] == views.last());
            }
        }
        r
    }

    /// Collect the suffixes of all keys stored below node `n`, in traversal
    /// order.
    fn subtree_list(&self, n: u64) -> (r: Vec<Vec<u8>>)
        requires
            self.wf(),
            1 <= n as int <= nnodes(self@),
        ensures
            r@.map_values(|x: Vec<u8>| x@) == sub_keys(self@, n as int),
        decreases nnodes(self@) - n as int,
    {
        let mut out: Vec<Vec<u8>> = Vec::new();
        if self.terminal(n) {
            out.push(Vec::new());
        }
        proof {
            lemma_sub_keys_unfold(self@, n as int);
            if is_term(self@, n as int) {
                assert(out@.map_values(|x: Vec<u8>| x@) =~= seq![Seq::<u8>::empty()]);
            } else {
                assert(out@.map_values(|x: Vec<u8>| x@) =~= Seq::<Seq<u8>>::empty());
            }
        }
        let ghost own = out@.map_values(|x: Vec<u8>| x@);
        let (f, e) = self.child_range(n);
        proof {
            assert(range_keys(self@, f as int, f as int) == Seq::<Seq<u8>>::empty());
            assert(out@.map_values(|x: Vec<u8>| x@) =~= own + range_keys(
                self@,
                f as int,
                f as int,
            ));
        }
        let mut m = f;
        while m < e
            invariant
                self.wf(),
                1 <= n as int <= nnodes(self@),
                f as int == cs(self@, n as int),
                e as int == ce(self@, n as int),
                e as int <= nnodes(self@) + 1,
                n < f,
                f <= m <= e,
                own == (if is_term(self@, n as int) {
                    seq![Seq::<u8>::empty()]
                } else {
                    Seq::<Seq<u8>>::empty()
                }),
                out@.map_values(|x: Vec<u8>| x@) == own + range_keys(self@, f as int, m as int),
            decreases e - m,
        {
            proof {
                lemma_block_member(self@, n as int, m as int);
            }
            let lab_m = self.get_label(m);
            let mut sub = self.subtree_list(m);
            let ghost subseq = sub@.map_values(|x: Vec<u8>| x@);
            let ghost before = out@.map_values(|x: Vec<u8>| x@);
            while sub.len() > 0
                invariant
                    self.wf(),
                    lab_m == lab(self@, m as int),
                    subseq.len() >= sub@.len(),
                    sub@.map_values(|x: Vec<u8>| x@) == subseq.skip(
                        subseq.len() - sub@.len(),
                    ),
                    out@.map_values(|x: Vec<u8>| x@) == before + subseq.take(
                        subseq.len() - sub@.len(),
                    ).map_values(|s: Seq<u8>| seq![lab_m].add(s)),
                decreases sub@.len(),
            {
                let ghost done = subseq.len() - sub@.len();
                let mut s = sub.remove(0);
                proof {
                    assert(subseq.skip(done)[0] == subseq[done]);
                    assert(subseq.skip(done).remove(0) =~= subseq.skip(done + 1));
                    assert(s@ == subseq[done]);
                }
                let mut t: Vec<u8> = Vec::new();
                t.push(lab_m);
                t.append(&mut s);
                proof {
                    assert(t@ =~= seq![lab_m].add(subseq[done]));
                }
                let ghost out_pre = out@;
                out.push(t);
                proof {
                    let lhs = out@.map_values(|x: Vec<u8>| x@);
                    let rhs = before + subseq.take(done + 1).map_values(
                        |s2: Seq<u8>| seq![lab_m].add(s2),
                    );
                    assert(out@ == out_pre.push(t));
                    assert(out_pre.map_values(|x: Vec<u8>| x@).len() == out_pre.len());
                    assert(subseq.take(done).len() == done);
                    assert(subseq.take(done + 1).len() == done + 1);
                    assert(lhs.len() == rhs.len());
                    assert forall|k: int| 0 <= k < lhs.len() implies lhs[k] == rhs[k] by {
                        assert(lhs[k] == out@[k]@);
                        if k < out_pre.len() {
                            assert(out@[k] == out_pre[k]);
                            assert(out_pre.map_values(|x: Vec<u8>| x@)[k] == out_pre[k]@);
                            assert(out_pre.map_values(|x: Vec<u8>| x@)[k] == (before
                                + subseq.take(done).map_values(
                                |s2: Seq<u8>| seq![lab_m].add(s2),
                            ))[k]);
                            if k < before.len() {
                                assert(rhs[k] == before[k]);
                            } else {
                                assert(subseq.take(done)[k - before.len()] == subseq[k
                                    - before.len()]);
                                assert(subseq.take(done + 1)[k - before.len()] == subseq[k
                                    - before.len()]);
                            }
                        } else {
                            assert(out@[k] == t);
                            assert(subseq.take(done + 1)[k - before.len()] == subseq[done]);
                        }
                    }
                    assert(lhs =~= rhs);
                }
            }
            proof {
                assert(subseq.take(subseq.len() as int) =~= subseq);
                lemma_range_split(self@, f as int, m as int, m as int + 1);
                assert(range_keys(self@, m as int, m as int + 1) == sub_keys(
                    self@,
                    m as int,
                ).map_values(|s2: Seq<u8>| seq![lab(self@, m as int)].add(s2)) + Seq::<
                    Seq<u8>,
                >::empty());
                assert(out@.map_values(|x: Vec<u8>| x@) =~= own + range_keys(
                    self@,
                    f as int,
                    m as int + 1,
                ));
            }
            m += 1;
        }
        proof {
            lemma_sub_keys_unfold(self@, n as int);
        }
        out
    }

    /// Return the suffixes past `query` of every key extending `query`, in
    /// lexicographic order; the empty suffix stands for `query` itself.
    pub fn postfix_search(&self, query: &Vec<u8>) -> (r: Vec<Vec<u8>>)
        requires
            self.wf(),
        ensures
            r@.map_values(|x: Vec<u8>| x@) == postfix_keys(self@, query@),
    {
        match self.walk_to(query) {
            Some(n) => self.subtree_list(n),
            None => {
                let r: Vec<Vec<u8>> = Vec::new();
                proof {
                    assert(r@.map_values(|x: Vec<u8>| x@) =~= postfix_keys(self@, query@));
                }
                r
            },
        }
    }

    /// Return every key that has `query` as a prefix, in lexicographic order.
    pub fn predictive_search(&self, query: &Vec<u8>) -> (r: Vec<Vec<u8>>)
        requires
            self.wf(),
        ensures
            r@.map_values(|x: Vec<u8>| x@) == predictive_keys(self@, query@),
    {
        let subs = self.postfix_search(query);
        let ghost subseq = subs@.map_values(|x: Vec<u8>| x@);
        let mut out: Vec<Vec<u8>> = Vec::new();
        let mut i: usize = 0;
        proof {
            assert(out@.map_values(|x: Vec<u8>| x@) =~= subseq.take(0).map_values(
                |s: Seq<u8>| query@ + s,
            ));
        }
        let mut rest = subs;
        while rest.len() > 0
            invariant
                subseq.len() >= rest@.len(),
                rest@.map_values(|x: Vec<u8>| x@) == subseq.skip(subseq.len() - rest@.len()),
                out@.map_values(|x: Vec<u8>| x@) == subseq.take(
                    subseq.len() - rest@.len(),
                ).map_values(|s: Seq<u8>| query@ + s),
            decreases rest@.len(),
        {
            let ghost done = subseq.len() - rest@.len();
            let mut s = rest.remove(0);
            proof {
                assert(subseq.skip(done)[0] == subseq[done]);
                assert(subseq.skip(done).remove(0) =~= subseq.skip(done + 1));
                assert(s@ == subseq[done]);
            }
            let mut t = prefix_vec(query, query.len());
            proof {
                assert(query@.take(query@.len() as int) =~= query@);
            }
            t.append(&mut s);
            out.push(t);
            proof {
                assert(subseq.take(done + 1) =~= subseq.take(done).push(subseq[done]));
                assert(subseq.take(done + 1).map_values(|s2: Seq<u8>| query@ + s2) =~~= subseq.take(
                    done,
                ).map_values(|s2: Seq<u8>| query@ + s2).push(query@ + subseq[done]));
                assert(out@.map_values(|x: Vec<u8>| x@) =~~= subseq.take(done + 1).map_values(
                    |s2: Seq<u8>| query@ + s2,
                ));
            }
        }
        proof {
            assert(subseq.take(subseq.len() as int) =~= subseq);
            assert(out@.map_values(|x: Vec<u8>| x@) == predictive_keys(self@, query@));
        }
        out
    }

    /// Enumerate every key of the trie, in lexicographic order.
    pub fn iter(&self) -> (r: Vec<Vec<u8>>)
        requires
            self.wf(),
        ensures
            r@.map_values(|x: Vec<u8>| x@) == all_keys(self@),
    {
        proof {
            crate::louds::lemma_root_node(self@);
        }
        self.subtree_list(1)
    }
}

/// Copy of the first `i` labels of `q`.
fn prefix_vec(q: &Vec<u8>, i: usize) -> (r: Vec<u8>)
    requires
        i <= q@.len(),
    ensures
        r@ == q@.take(i as int),
{
    let mut r: Vec<u8> = Vec::new();
    let mut j: usize = 0;
    while j < i
        invariant
            j <= i <= q@.len(),
            r@ == q@.take(j as int),
        decreases i - j,
    {
        r.push(q[j]);
        proof {
            assert(q@.take(j as int + 1) =~= q@.take(j as int).push(q@[j as int]));
        }
        j += 1;
    }
    r
}

/// Once the walk has fallen off at prefix length `i`, no longer prefix is a
/// key, so the collected prefix keys stay as they are.
proof fn lemma_cps_frozen<V>(v: crate::louds::TrieView<V>, q: Seq<u8>, i: int, j: int)
    requires
        1 <= i <= j <= q.len() + 1,
        walk_from(v, 1, q.take(i - 1)) is None,
    ensures
        cps_upto(v, q, j) == cps_upto(v, q, i),
    decreases j - i,
{
    if i < j {
        lemma_cps_frozen(v, q, i, j - 1);
        assert(q.take(j - 1).take(i - 1) =~= q.take(i - 1));
        lemma_walk_extend_any(v, q.take(j - 1), i - 1);
        assert(!has_key(v, q.take(j - 1)));
        assert(cps_upto(v, q, j) =~= cps_upto(v, q, j - 1));
    }
}

/// `lemma_walk_extend` for an arbitrary base sequence.
proof fn lemma_walk_extend_any<V>(v: crate::louds::TrieView<V>, q: Seq<u8>, i: int)
    requires
        0 <= i <= q.len(),
        walk_from(v, 1, q.take(i)) is None,
    ensures
        walk_from(v, 1, q) is None,
{
    lemma_walk_extend(v, q, i);
}

} // verus!
