//! A trie that maps sequences of `u8` labels to values of type `V`.
//!
//! `TrieBuilder` is the mutable construction phase, modelled by the map from
//! keys to values it holds. `build` encodes it, once, into the immutable
//! succinct `Trie`: the LOUDS bit sequence, the label array, the terminal
//! bitmap and the dense value array, with the well-formedness of the
//! encoding proved.

use crate::bits::{
    bv_model, bv_new, bv_push, lemma_rk_sum, lemma_rkb_agree, lemma_rkb_mono, lemma_rkb_push,
    lemma_rkb_push_all, rk0, rk1, rkb,
};
use crate::louds::{
    has_key, key_val, lemma_count_run, lemma_sorted_runs_push_false, lemma_sorted_runs_push_true,
    sorted_runs, wf as shape_wf, zeros_strict, TrieView,
};
use crate::naive_trie::{
    kv_map, lemma_list_size_skip, lemma_list_wf_children, lemma_queue_size_push, list_size,
    list_wf, node_size, queue_size, value_at, wf_node, NaiveNode, root_insert,
};
use vstd::prelude::*;

pub mod search;

verus! {

/// A trie for byte sequences; each key holds an associated `Value`.
#[derive(Clone, Debug)]
pub struct Trie<Value> {
    louds: fid::BitVector,
    labels: Vec<u8>,
    terminals: fid::BitVector,
    values: Vec<Value>,
}

/// A trie builder for [`Trie`].
#[derive(Debug)]
pub struct TrieBuilder<Value> {
    naive_trie: NaiveNode<Value>,
}

impl<V> View for Trie<V> {
    type V = TrieView<V>;

    closed spec fn view(&self) -> TrieView<V> {
        TrieView {
            bits: bv_model(&self.louds),
            labels: self.labels@,
            terms: bv_model(&self.terminals),
            vals: self.values@,
        }
    }
}

impl<V> View for TrieBuilder<V> {
    type V = Map<Seq<u8>, V>;

    closed spec fn view(&self) -> Map<Seq<u8>, V> {
        kv_map(self.naive_trie)
    }
}

/// Stronger balance than `zeros_strict`: it also binds the final position.
pub open spec fn zeros_strict_all(s: Seq<bool>) -> bool {
    forall|i: int| 0 <= i < s.len() && !(#[trigger] s[i]) ==> rk1(s, i) >= rk0(s, i) + 1
}

/// Invariant of the encoder between two runs: the arrays built so far are a
/// balanced, sorted prefix of a LOUDS encoding, and the queue holds one
/// pending children list per still-open run.
spec fn enc_inv<V>(
    bs: Seq<bool>,
    ls: Seq<u8>,
    ts: Seq<bool>,
    ws: Seq<V>,
    q: Seq<Vec<NaiveNode<V>>>,
) -> bool {
    &&& bs.len() >= 2
    &&& bs[0]
    &&& !bs[1]
    &&& zeros_strict(bs)
    &&& sorted_runs(bs, ls)
    &&& ls.len() == rk1(bs, bs.len() as int) - 1
    &&& rk1(bs, bs.len() as int) - rk0(bs, bs.len() as int) == q.len() - 1
    &&& ts.len() == rk1(bs, bs.len() as int) + 1
    &&& !ts[0]
    &&& !ts[1]
    &&& ws.len() == rk1(ts, ts.len() as int)
    &&& forall|t: int| 0 <= t < q.len() ==> list_wf(#[trigger] q[t]@)
}


/// Ghost record of the encoder's progress: `nodes[j]` is the construction
/// node that received number `j`, `zs[k]` the position of the k-th
/// run-closing bit, `os[k]` the number of set bits before and at it.
spec fn corr_inv<V>(
    bs: Seq<bool>,
    ls: Seq<u8>,
    ts: Seq<bool>,
    ws: Seq<V>,
    nodes: Seq<NaiveNode<V>>,
    zs: Seq<int>,
    os: Seq<int>,
) -> bool {
    let ones = rk1(bs, bs.len() as int);
    let zeros = rk0(bs, bs.len() as int);
    &&& zs.len() == zeros
    &&& os.len() == zeros
    &&& zs.len() >= 1
    &&& zs[0] == 1
    &&& os[0] == 1
    &&& forall|k: int| 0 <= k < zs.len() ==> 0 <= #[trigger] zs[k] < bs.len()
    &&& forall|k: int| 0 <= k < zs.len() ==> !bs[#[trigger] zs[k]]
    &&& forall|k: int| 0 <= k < zs.len() ==> rk0(bs, #[trigger] zs[k]) == k
    &&& forall|k: int| 0 <= k < zs.len() ==> rk1(bs, #[trigger] zs[k]) == os[k]
    &&& forall|k: int| 0 <= k < os.len() ==> 0 <= #[trigger] os[k] <= ones
    &&& nodes.len() == ones + 1
    &&& forall|j: int| 2 <= j <= ones ==> ls[j - 2] == (#[trigger] nodes[j]).label
    &&& forall|j: int| 1 <= j <= ones ==> ts[j] == ((#[trigger] nodes[j]).value is Some)
    &&& forall|j: int|
        1 <= j <= ones && (#[trigger] nodes[j]).value is Some ==> 0 <= rk1(ts, j) < ws.len()
            && ws[rk1(ts, j)] == nodes[j].value->0
    &&& forall|j: int| 1 <= j <= ones ==> wf_node(#[trigger] nodes[j])
    &&& forall|j: int| 2 <= j <= ones ==> crate::naive_trie::node_ok(#[trigger] nodes[j])
    &&& forall|k: int|
        1 <= k < zs.len() ==> (#[trigger] nodes[k]).children@.len() == os[k] - os[k - 1]
    &&& forall|k: int, u: int|
        1 <= k < zs.len() && 0 <= u < nodes[k].children@.len() ==> nodes[os[k - 1] + 1 + u]
            == #[trigger] nodes[k].children@[u]
}

impl<V> TrieBuilder<V> {
    /// The construction trie is sound: sorted children everywhere, and no
    /// value on the root, since the empty key is not accepted.
    pub closed spec fn wf(&self) -> bool {
        &&& wf_node(self.naive_trie)
        &&& crate::naive_trie::leafy(self.naive_trie)
        &&& self.naive_trie.value is None
    }

    /// Return a [`TrieBuilder`] holding no keys.
    pub fn new() -> (r: Self)
        ensures
            r.wf(),
            r@ == Map::<Seq<u8>, V>::empty(),
    {
        let r = TrieBuilder {
            naive_trie: NaiveNode { label: 0, value: None, children: Vec::new() },
        };
        proof {
            assert forall|k: Seq<u8>| !(#[trigger] value_at(r.naive_trie, k) is Some) by {
                if k.len() > 0 {
                    assert(!exists|i: int|
                        0 <= i < r.naive_trie.children@.len() && r.naive_trie.children@[i].label
                            == k[0]);
                }
            }
            assert(r@ =~= Map::<Seq<u8>, V>::empty());
            assert forall|k: Seq<u8>|
                (#[trigger] crate::naive_trie::subnode(r.naive_trie, k))
                    is Some implies crate::naive_trie::kids_sorted(
                crate::naive_trie::subnode(r.naive_trie, k)->0,
            ) && (k.len() > 0 ==> crate::naive_trie::node_ok(
                crate::naive_trie::subnode(r.naive_trie, k)->0,
            )) by {
                if k.len() > 0 {
                    assert(!exists|i: int|
                        0 <= i < r.naive_trie.children@.len() && r.naive_trie.children@[i].label
                            == k[0]);
                }
            }
        }
        r
    }

    /// Insert a value for the given key; any value previously stored for the
    /// same key comes back.
    pub fn insert(&mut self, key: &Vec<u8>, value: V) -> (prev: Option<V>)
        requires
            old(self).wf(),
            key@.len() > 0,
        ensures
            final(self).wf(),
            final(self)@ == old(self)@.insert(key@, value),
            prev == if old(self)@.contains_key(key@) {
                Some(old(self)@[key@])
            } else {
                None::<V>
            },
    {
        let prev = root_insert(&mut self.naive_trie, key, value);
        proof {
            assert(self@ =~= old(self)@.insert(key@, value));
        }
        prev
    }

    /// Build a [`Trie`], consuming the builder.
    ///
    /// The canonical breadth-first traversal seeds the bit sequence with the
    /// super-root sentinel, then appends one set bit, one label and one
    /// terminal flag per node, and one clear bit after each node's last
    /// child.
    pub fn build(self) -> (t: Trie<V>)
        requires
            self.wf(),
        ensures
            t.wf(),
            crate::louds::no_bare_leaf(t@),
            forall|k: Seq<u8>| #[trigger] has_key(t@, k) <==> self@.contains_key(k),
            forall|k: Seq<u8>| #[trigger] has_key(t@, k) ==> key_val(t@, k) == self@[k],
    {
        let ghost gself = self;
        let TrieBuilder { naive_trie } = self;
        let ghost root0 = naive_trie;
        let NaiveNode { label: _, value: _, children: root_children } = naive_trie;
        let mut louds = bv_new();
        bv_push(&mut louds, true);
        bv_push(&mut louds, false);
        let mut labels: Vec<u8> = Vec::new();
        let mut terminals = bv_new();
        bv_push(&mut terminals, false);
        bv_push(&mut terminals, false);
        let mut values: Vec<V> = Vec::new();
        let mut queue: Vec<Vec<NaiveNode<V>>> = Vec::new();
        let ghost mut nodes: Seq<NaiveNode<V>> = seq![root0, root0];
        let ghost mut zs: Seq<int> = seq![1int];
        let ghost mut os: Seq<int> = seq![1int];
        proof {
            lemma_list_wf_children(naive_trie);
        }
        queue.push(root_children);
        proof {
            let bs = bv_model(&louds);
            let ts = bv_model(&terminals);
            assert(bs.len() == 2 && bs[0] && !bs[1]);
            assert(rkb(bs, true, 0) == 0 && rkb(bs, false, 0) == 0);
            assert(rk1(bs, 1) == 1 && rk0(bs, 1) == 0);
            assert(rk1(bs, 2) == 1 && rk0(bs, 2) == 1);
            assert(ts.len() == 2 && !ts[0] && !ts[1]);
            assert(rkb(ts, true, 0) == 0);
            assert(rk1(ts, 1) == 0);
            assert(rk1(ts, 2) == 0);
        }
        while queue.len() > 0
            invariant
                enc_inv(bv_model(&louds), labels@, bv_model(&terminals), values@, queue@),
                !bv_model(&louds)[bv_model(&louds).len() - 1],
                corr_inv(bv_model(&louds), labels@, bv_model(&terminals), values@, nodes, zs, os),
                nodes[1] == root0,
                forall|t: int|
                    0 <= t < queue@.len() ==> (#[trigger] queue@[t])@ == nodes[rk0(
                        bv_model(&louds),
                        bv_model(&louds).len() as int,
                    ) + t].children@,
            decreases queue_size(queue@), queue@.len(),
        {
            let ghost q_pre = queue@;
            let mut list = queue.remove(0);
            let ghost q0 = queue@;
            let ghost b0 = bv_model(&louds);
            let ghost l0 = labels@;
            let ghost list0 = list@;
            let ghost kk = rk0(b0, b0.len() as int);
            proof {
                assert(list_wf(list0)) by {
                    assert(q_pre[0]@ == list0);
                }
                assert forall|t: int| 0 <= t < q0.len() implies list_wf(#[trigger] q0[t]@) by {
                    assert(q0[t] == q_pre[t + 1]);
                }
                assert(queue_size(q_pre) == list_size(list0) + queue_size(q0)) by {
                    assert(q_pre[0]@ == list0);
                    assert(q_pre.drop_first() =~= q0);
                }
                assert(list0.skip(0) =~= list0);
                assert(list0 == nodes[kk as int].children@) by {
                    assert(q_pre[0]@ == list0);
                }
                assert forall|t: int|
                    0 <= t < q0.len() implies (#[trigger] q0[t])@ == nodes[kk + 1 + t].children@ by {
                    assert(q0[t] == q_pre[t + 1]);
                }
                // the run-closing bit at the end of `b0` is strictly balanced,
                // so the whole prefix is
                assert(rk1(b0, b0.len() - 1) == rk1(b0, b0.len() as int));
                assert(rk0(b0, b0.len() - 1) == rk0(b0, b0.len() as int) - 1);
            }
            while list.len() > 0
                invariant
                    list_wf(list0),
                    0 <= list0.len() - list@.len() <= list0.len(),
                    list@ == list0.skip(list0.len() - list@.len()),
                    b0.len() >= 2,
                    b0[0],
                    !b0[1],
                    !b0[b0.len() - 1],
                    kk == rk0(b0, b0.len() as int),
                    rk1(b0, b0.len() as int) - rk0(b0, b0.len() as int) == q0.len(),
                    l0.len() == rk1(b0, b0.len() as int) - 1,
                    bv_model(&louds).len() == b0.len() + (list0.len() - list@.len()),
                    forall|r: int| 0 <= r < b0.len() ==> bv_model(&louds)[r] == b0[r],
                    forall|r: int|
                        b0.len() <= r < bv_model(&louds).len() ==> bv_model(&louds)[r],
                    rk1(bv_model(&louds), bv_model(&louds).len() as int) == rk1(
                        b0,
                        b0.len() as int,
                    ) + (list0.len() - list@.len()),
                    rk0(bv_model(&louds), bv_model(&louds).len() as int) == rk0(
                        b0,
                        b0.len() as int,
                    ),
                    zeros_strict_all(bv_model(&louds)),
                    sorted_runs(bv_model(&louds), labels@),
                    labels@.len() == l0.len() + (list0.len() - list@.len()),
                    forall|r: int| 0 <= r < l0.len() ==> labels@[r] == l0[r],
                    forall|u: int|
                        0 <= u < list0.len() - list@.len() ==> labels@[l0.len() + u]
                            == list0[u].label,
                    bv_model(&terminals).len() == rk1(
                        bv_model(&louds),
                        bv_model(&louds).len() as int,
                    ) + 1,
                    !bv_model(&terminals)[0],
                    !bv_model(&terminals)[1],
                    values@.len() == rk1(bv_model(&terminals), bv_model(&terminals).len() as int),
                    queue@.len() == q0.len() + (list0.len() - list@.len()),
                    forall|t: int| 0 <= t < queue@.len() ==> list_wf(#[trigger] queue@[t]@),
                    forall|t: int| 0 <= t < q0.len() ==> queue@[t] == q0[t],
                    queue_size(queue@) + list_size(list@) + (list0.len() - list@.len())
                        == queue_size(q0) + list_size(list0),
                    corr_inv(
                        bv_model(&louds),
                        labels@,
                        bv_model(&terminals),
                        values@,
                        nodes,
                        zs,
                        os,
                    ),
                    nodes[1] == root0,
                    list0 == nodes[kk as int].children@,
                    forall|t: int|
                        0 <= t < queue@.len() ==> (#[trigger] queue@[t])@ == nodes[kk + 1
                            + t].children@,
                    forall|u: int|
                        0 <= u < list0.len() - list@.len() ==> nodes[rk1(b0, b0.len() as int) + 1
                            + u] == list0[u],
                decreases list@.len(),
            {
                let ghost jj = list0.len() - list@.len();
                let ghost bs = bv_model(&louds);
                let ghost ts0 = bv_model(&terminals);
                let ghost ws0 = values@;
                let ghost ls = labels@;
                let ghost qs = queue@;
                let ghost nodes0 = nodes;
                let ghost ones_cur = rk1(bs, bs.len() as int);
                let ch = list.remove(0);
                proof {
                    assert(ch == list0.skip(jj)[0]);
                    assert(list0.skip(jj)[0] == list0[jj]);
                    assert(list@ == list0.skip(jj).remove(0));
                    assert(list0.skip(jj).remove(0) =~= list0.skip(jj + 1));
                    lemma_list_size_skip(list0, jj);
                }
                let NaiveNode { label: ch_label, value: ch_value, children: ch_children } = ch;
                proof {
                    // the new set bit extends the open run; its label exceeds
                    // every label already in the run
                    assert forall|u: int| b0.len() - 1 < u < bs.len() implies ls[rk1(bs, u) - 1]
                        < ch_label by {
                        lemma_rkb_agree(b0, bs, true, b0.len() as int);
                        lemma_count_run(bs, b0.len() as int, u);
                        assert(ls[rk1(bs, u) - 1] == list0[u - b0.len()].label);
                        assert(list0[u - b0.len()].label < list0[jj].label);
                    }
                    lemma_sorted_runs_push_true(bs, ls, ch_label, b0.len() - 1);
                    lemma_rkb_push_all(bs, true, true);
                    lemma_rkb_push_all(bs, false, true);
                }
                bv_push(&mut louds, true);
                labels.push(ch_label);
                proof {
                    assert forall|i: int|
                        0 <= i < bv_model(&louds).len() && !(#[trigger] bv_model(&louds)[i])
                            implies rk1(bv_model(&louds), i) >= rk0(bv_model(&louds), i) + 1 by {
                        assert(i < bs.len());
                        assert(bv_model(&louds)[i] == bs[i]);
                        lemma_rkb_push(bs, true, true, i);
                        lemma_rkb_push(bs, false, true, i);
                    }
                    lemma_rkb_push_all(bv_model(&terminals), true, ch_value is Some);
                    lemma_rkb_push_all(bv_model(&terminals), false, ch_value is Some);
                }
                match ch_value {
                    Some(v) => {
                        bv_push(&mut terminals, true);
                        values.push(v);
                    },
                    None => {
                        bv_push(&mut terminals, false);
                    },
                }
                proof {
                    assert(wf_node(list0[jj]));
                    lemma_list_wf_children(list0[jj]);
                    assert(list_wf(ch_children@));
                }
                queue.push(ch_children);
                proof {
                    lemma_queue_size_push(qs, queue@[queue@.len() - 1]);
                    assert(queue@ == qs.push(queue@[queue@.len() - 1]));
                    assert(node_size(list0[jj]) == 1 + list_size(ch_children@));
                    // record the fresh node under its number
                    nodes = nodes.push(list0[jj]);
                    let bs2 = bv_model(&louds);
                    let ts2 = bv_model(&terminals);
                    let newj = ones_cur + 1;
                    assert(bs2.len() == bs.len() + 1);
                    assert(rk1(bs2, bs2.len() as int) == ones_cur + 1);
                    assert forall|k: int|
                        0 <= k < zs.len() implies rk0(bs2, #[trigger] zs[k]) == k && rk1(
                        bs2,
                        zs[k],
                    ) == os[k] && !bs2[zs[k]] by {
                        lemma_rkb_push(bs, false, true, zs[k]);
                        lemma_rkb_push(bs, true, true, zs[k]);
                    }
                    assert forall|j: int|
                        1 <= j <= ones_cur implies rk1(ts2, j) == rk1(ts0, j) by {
                        lemma_rkb_push(ts0, true, ch_value is Some, j);
                    }
                    assert(rk1(ts2, newj) == rk1(ts0, ts0.len() as int)) by {
                        lemma_rkb_push(ts0, true, ch_value is Some, ts0.len() as int);
                    }
                    assert(nodes[newj] == list0[jj]);
                    assert(labels@[newj - 2] == ch_label);
                    assert(ts2[newj] == (ch_value is Some));
                    assert(kk + qs.len() == ones_cur);
                    assert(nodes[kk + 1 + (qs.len() - q0.len()) + q0.len()].children@
                        == ch_children@);
                    assert(corr_inv(
                        bv_model(&louds),
                        labels@,
                        bv_model(&terminals),
                        values@,
                        nodes,
                        zs,
                        os,
                    ));
                }
            }
            proof {
                assert(list@.len() == 0);
                assert(list0.len() - list@.len() == list0.len());
            }
            let ghost bs = bv_model(&louds);
            let ghost ls = labels@;
            proof {
                lemma_sorted_runs_push_false(bs, ls);
                lemma_rkb_push_all(bs, true, false);
                lemma_rkb_push_all(bs, false, false);
                assert forall|i: int|
                    0 <= i < bs.push(false).len() && !(#[trigger] bs.push(false)[i]) implies rk1(
                    bs.push(false),
                    i,
                ) >= rk0(bs.push(false), i) + 1 || i == bs.push(false).len() - 1 by {
                    if i < bs.len() {
                        assert(bs.push(false)[i] == bs[i]);
                        lemma_rkb_push(bs, true, false, i);
                        lemma_rkb_push(bs, false, false, i);
                    }
                }
            }
            bv_push(&mut louds, false);
            proof {
                assert(queue_size(queue@) + list0.len() == queue_size(q_pre));
                assert(queue@.len() == q_pre.len() - 1 + list0.len());
                // close run `kk`: record its bit position and rank
                let bs2 = bv_model(&louds);
                let pz = bs.len() as int;
                let ones_fin = rk1(bs, bs.len() as int);
                zs = zs.push(pz);
                os = os.push(ones_fin);
                assert(rk1(bs2, pz) == ones_fin && rk0(bs2, pz) == kk) by {
                    lemma_rkb_push(bs, true, false, pz);
                    lemma_rkb_push(bs, false, false, pz);
                }
                assert forall|k: int|
                    0 <= k < zs.len() - 1 implies rk0(bs2, #[trigger] zs[k]) == k && rk1(
                    bs2,
                    zs[k],
                ) == os[k] && !bs2[zs[k]] by {
                    lemma_rkb_push(bs, false, false, zs[k]);
                    lemma_rkb_push(bs, true, false, zs[k]);
                }
                // the run being closed is the one whose list was popped
                assert(zs[kk - 1] == b0.len() - 1) by {
                    assert(!bs[b0.len() - 1]);
                    assert(rk0(bs, b0.len() - 1) == kk - 1) by {
                        lemma_rkb_agree(b0, bs, false, b0.len() as int);
                        assert(rk0(bs, b0.len() as int) == kk);
                        assert(rk0(bs, b0.len() - 1) == rk0(bs, b0.len() as int) - 1) by {
                            lemma_rkb_agree(b0, bs, false, b0.len() - 1);
                        }
                    }
                    assert(!bs[zs[kk - 1]]);
                    assert(rk0(bs, zs[kk - 1]) == kk - 1);
                    crate::bits::lemma_rkb_unique_pos(bs, false, zs[kk - 1], b0.len() - 1);
                }
                assert(os[kk - 1] == rk1(b0, b0.len() as int)) by {
                    lemma_rkb_agree(b0, bs, true, b0.len() - 1);
                    assert(rk1(bs, zs[kk - 1]) == os[kk - 1]);
                    assert(rk1(b0, b0.len() - 1) == rk1(b0, b0.len() as int));
                }
                assert(nodes[kk as int].children@.len() == os[kk as int] - os[kk - 1]);
                assert forall|u: int|
                    0 <= u < nodes[kk as int].children@.len() implies nodes[os[kk - 1] + 1 + u]
                    == #[trigger] nodes[kk as int].children@[u] by {
                    assert(nodes[rk1(b0, b0.len() as int) + 1 + u] == list0[u]);
                }
                assert(corr_inv(
                    bv_model(&louds),
                    labels@,
                    bv_model(&terminals),
                    values@,
                    nodes,
                    zs,
                    os,
                ));
                assert forall|t: int|
                    0 <= t < queue@.len() implies (#[trigger] queue@[t])@ == nodes[rk0(
                    bs2,
                    bs2.len() as int,
                ) + t].children@ by {
                    assert(rk0(bs2, bs2.len() as int) == kk + 1);
                }
            }
        }
        let t = Trie { louds, labels, terminals, values };
        proof {
            let bs = bv_model(&t.louds);
            let n = rk1(bs, bs.len() as int);
            lemma_rk_sum(bs, bs.len() as int);
            assert(rk0(bs, bs.len() as int) == n + 1);
            assert(n >= 1) by {
                assert(rkb(bs, true, 0) == 0);
                assert(rk1(bs, 1) == 1);
                lemma_rkb_mono(bs, true, 1, bs.len() as int);
            }
            assert(shape_wf(t@));
            // the recorded numbering makes the arrays mirror the tree
            let v = t@;
            assert(zs.len() == n + 1);
            assert forall|j: int|
                1 <= j <= n + 1 implies crate::louds::zpos(v, j) == zs[j - 1] by {
                assert(rkb(v.bits, false, 0) == 0);
                crate::bits::lemma_selb_inverse(v.bits, false, zs[j - 1], 0);
            }
            assert forall|j: int|
                1 <= j <= n implies crate::louds::cs(v, j) == os[j - 1] + 1 && crate::louds::ce(
                v,
                j,
            ) == os[j] + 1 by {
                assert(crate::louds::cs(v, j) == rk1(v.bits, zs[j - 1]) + 1);
                lemma_rk_sum(v.bits, zs[j - 1]);
                lemma_rk_sum(v.bits, zs[j]);
                assert(zs[j - 1] == os[j - 1] + (j - 1));
                assert(zs[j] == os[j] + j);
            }
            assert(mirrors(v, nodes));
            assert forall|m: int|
                2 <= m <= n && crate::louds::cs(v, m) == crate::louds::ce(v, m) implies
                crate::louds::is_term(v, m) by {
                assert(nodes[m].children@.len() == 0);
                assert(crate::naive_trie::node_ok(nodes[m]));
            }
            assert(crate::louds::no_bare_leaf(v));
            assert(gself@ == kv_map(root0));
            assert forall|k: Seq<u8>| #[trigger] has_key(v, k) <==> gself@.contains_key(k) by {
                lemma_walk_matches(v, nodes, 1, k);
            }
            assert forall|k: Seq<u8>| #[trigger] has_key(v, k) implies key_val(v, k)
                == gself@[k] by {
                lemma_walk_matches(v, nodes, 1, k);
            }
        }
        t
    }
}

impl<V> Trie<V> {
    /// The four arrays form a valid LOUDS encoding; established by `build`
    /// and assumed by every query.
    pub open spec fn wf(&self) -> bool {
        shape_wf(self@)
    }

    /// The LOUDS bit sequence, first of the four persisted arrays.
    pub fn louds_bits(&self) -> (r: Vec<bool>)
        ensures
            r@ == self@.bits,
    {
        unpack_bits(&self.louds)
    }

    /// The label array, second of the four persisted arrays.
    pub fn label_array(&self) -> (r: &Vec<u8>)
        ensures
            r@ == self@.labels,
    {
        &self.labels
    }

    /// The terminal bitmap, third of the four persisted arrays.
    pub fn terminal_bits(&self) -> (r: Vec<bool>)
        ensures
            r@ == self@.terms,
    {
        unpack_bits(&self.terminals)
    }

    /// The dense value array, last of the four persisted arrays.
    pub fn value_array(&self) -> (r: &Vec<V>)
        ensures
            r@ == self@.vals,
    {
        &self.values
    }

    /// Reassemble a trie from its four persisted arrays, in the fixed order:
    /// LOUDS bit sequence, labels, terminal bitmap, values. The arrays must
    /// form a well-formed encoding, as `build` produces and the accessors
    /// hand out; queries over arrays that do not are unspecified, so that is
    /// the caller's obligation.
    pub fn from_arrays(
        bits: Vec<bool>,
        labels: Vec<u8>,
        terminals: Vec<bool>,
        values: Vec<V>,
    ) -> (t: Trie<V>)
        requires
            shape_wf(arrays_view::<V>(bits@, labels@, terminals@, values@)),
        ensures
            t.wf(),
            t@ == arrays_view::<V>(bits@, labels@, terminals@, values@),
    {
        let louds = pack_bits(&bits);
        let terms = pack_bits(&terminals);
        Trie { louds, labels, terminals: terms, values }
    }
}

/// The hypotheses under which the encoded arrays mirror a family of
/// construction nodes: node `j` of the trie carries the label, terminal
/// flag, value and child window of `nodes[j]`.
pub open spec fn mirrors<V>(v: TrieView<V>, nodes: Seq<NaiveNode<V>>) -> bool {
    &&& crate::louds::wf(v)
    &&& nodes.len() == crate::louds::nnodes(v) + 1
    &&& forall|j: int|
        2 <= j <= crate::louds::nnodes(v) ==> crate::louds::lab(v, j) == (#[trigger] nodes[j]).label
    &&& forall|j: int|
        1 <= j <= crate::louds::nnodes(v) ==> crate::louds::is_term(v, j) == ((
        #[trigger] nodes[j]).value is Some)
    &&& forall|j: int|
        1 <= j <= crate::louds::nnodes(v) && (#[trigger] nodes[j]).value is Some ==> 0
            <= crate::louds::val_idx(v, j) < v.vals.len() && v.vals[crate::louds::val_idx(v, j)]
            == nodes[j].value->0
    &&& forall|j: int| 1 <= j <= crate::louds::nnodes(v) ==> wf_node(#[trigger] nodes[j])
    &&& forall|j: int|
        1 <= j <= crate::louds::nnodes(v) ==> (#[trigger] nodes[j]).children@.len()
            == crate::louds::ce(v, j) - crate::louds::cs(v, j)
    &&& forall|j: int, u: int|
        1 <= j <= crate::louds::nnodes(v) && 0 <= u < nodes[j].children@.len() ==> nodes[
            crate::louds::cs(v, j) + u] == #[trigger] nodes[j].children@[u]
}

/// Under `mirrors`, a walk over the arrays succeeds on a terminal node
/// exactly when the same path through the construction nodes ends on a
/// value, and it finds that value.
pub proof fn lemma_walk_matches<V>(v: TrieView<V>, nodes: Seq<NaiveNode<V>>, j: int, s: Seq<u8>)
    requires
        mirrors(v, nodes),
        1 <= j <= crate::louds::nnodes(v),
    ensures
        ((crate::louds::walk_from(v, j, s) matches Some(m) && crate::louds::is_term(v, m)) <==> (
        crate::naive_trie::value_at(nodes[j], s) is Some)),
        (crate::louds::walk_from(v, j, s) matches Some(m) && crate::louds::is_term(v, m))
            ==> crate::louds::node_val(v, crate::louds::walk_from(v, j, s)->0)
            == crate::naive_trie::value_at(nodes[j], s)->0,
    decreases s.len(),
{
    let node = nodes[j];
    assert(crate::naive_trie::subnode(node, Seq::<u8>::empty()) is Some);
    assert(crate::naive_trie::kids_sorted(node));
    if s.len() == 0 {
    } else {
        let c = s[0];
        crate::louds::lemma_cs_facts(v, j);
        crate::louds::lemma_child_block(v, j);
        if crate::louds::has_child(v, j, c) {
            let m = crate::louds::child_of(v, j, c);
            assert(crate::louds::cs(v, j) <= m < crate::louds::ce(v, j) && crate::louds::lab(
                v,
                m,
            ) == c);
            crate::louds::lemma_block_member(v, j, m);
            let u = m - crate::louds::cs(v, j);
            assert(nodes[m] == node.children@[u]);
            assert(node.children@[u].label == c);
            crate::naive_trie::lemma_find_some_pub(node.children@, c, u);
            assert(crate::naive_trie::subnode(node, s) == crate::naive_trie::subnode(
                node.children@[u],
                s.drop_first(),
            ));
            lemma_walk_matches(v, nodes, m, s.drop_first());
        } else {
            assert forall|a: int| 0 <= a < node.children@.len() implies node.children@[a].label
                != c by {
                let m2 = crate::louds::cs(v, j) + a;
                crate::louds::lemma_block_member(v, j, m2);
                assert(crate::louds::lab(v, m2) == nodes[m2].label);
                if node.children@[a].label == c {
                    assert(crate::louds::lab(v, m2) == c);
                }
            }
            crate::naive_trie::lemma_find_none_pub(node.children@, c);
        }
    }
}

/// The four arrays read as one trie view.
pub open spec fn arrays_view<V>(
    bs: Seq<bool>,
    ls: Seq<u8>,
    ts: Seq<bool>,
    ws: Seq<V>,
) -> TrieView<V> {
    TrieView { bits: bs, labels: ls, terms: ts, vals: ws }
}

/// Copy plain bits into the rank/select structure.
fn pack_bits(src: &Vec<bool>) -> (r: fid::BitVector)
    ensures
        bv_model(&r) == src@,
{
    let mut r = bv_new();
    let mut i: usize = 0;
    while i < src.len()
        invariant
            i <= src@.len(),
            bv_model(&r) == src@.take(i as int),
        decreases src@.len() - i,
    {
        bv_push(&mut r, src[i]);
        proof {
            assert(src@.take(i as int + 1) =~= src@.take(i as int).push(src@[i as int]));
        }
        i += 1;
    }
    proof {
        assert(src@.take(src@.len() as int) =~= src@);
    }
    r
}

/// Copy the rank/select structure out into plain bits.
fn unpack_bits(src: &fid::BitVector) -> (r: Vec<bool>)
    ensures
        r@ == bv_model(src),
{
    let len = crate::bits::bv_len(src);
    let mut r: Vec<bool> = Vec::new();
    let mut i: u64 = 0;
    while i < len
        invariant
            i <= len,
            len as int == bv_model(src).len(),
            r@ == bv_model(src).take(i as int),
        decreases len - i,
    {
        let b = crate::bits::bv_get(src, i);
        r.push(b);
        proof {
            assert(bv_model(src).take(i as int + 1) =~= bv_model(src).take(i as int).push(
                bv_model(src)[i as int],
            ));
        }
        i += 1;
    }
    proof {
        assert(bv_model(src).take(bv_model(src).len() as int) =~= bv_model(src));
    }
    r
}

} // verus!
