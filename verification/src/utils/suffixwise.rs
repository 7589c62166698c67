//! Data on the states of an automaton, one entry for every length of a
//! string of a state, kept in a persistent rope per state. The ropes are
//! filled in the order by length: a state takes over the entries of the
//! states that lead to it, and puts over them what is given for itself.
use crate::sam::{GeneralSAM, SAM_ROOT_NODE_ID};
use crate::sam_model::{edge, edge_ok, graph_wf, link_ok, lo, preds_apart, run, NodeView};
use crate::sam_order::{covers, len_sorted, prefix_set};
use crate::sam_paths::{
    in_words, kids_attached, lemma_all_attached, lemma_reads_word, lemma_run_interval,
    lemma_run_len, lemma_same_state_suffix, reads_tree,
};
use crate::table::{entries_agree, TransitionTable};
use crate::trie_alike::{child_at, sum_nat, tree_vocab, walk, TrieNodeAlike};
use crate::utils::rope::{Rope, RopeBase, RopeUntaggedInner, TreapBasedRopeBase};
use crate::utils::suffix_model::{
    carrier, covered, final_seq, inherited_seq, lemma_carrier, lemma_carrier_exists,
    lemma_interval, lemma_lowest_first, lemma_merge_step, lemma_next_pred, lemma_override_step,
    lemma_override_witness, lemma_overrides_done, lemma_pred_cases, lemma_sorted_prefix,
    lemma_top_pred, lowest_pred, override_at, relaxed, suffix_entry, top_end, waiting_ok,
};
use crate::utils::vocab::{best_upto, lemma_best_bound, lemma_best_prefix};
use std::collections::VecDeque;
use vstd::prelude::*;

verus! {

/// The entries of one state: a rope with one entry for every length from
/// the shortest string of the state to its longest.
pub struct SuffixwiseData<Inner> {
    data: Rope<Inner>,
    min_suf_len: usize,
    max_suf_len: usize,
}

/// The lists of pairs as the contracts see them.
pub open spec fn lists_view<Inner>(v: Seq<Vec<(usize, Inner)>>) -> Seq<Seq<(usize, Inner)>> {
    Seq::new(v.len(), |i: int| v[i]@)
}

/// Every pair that is given for a state names a length of a string of that
/// state.
pub open spec fn overrides_in_range<Inner>(g: Seq<NodeView>, ov: Seq<Seq<(usize, Inner)>>) -> bool {
    forall|v: int, j: int|
        2 <= v < g.len() && 0 <= j < ov[v].len() ==> lo(g, v) < (#[trigger] ov[v][j]).0 <= g[v].len
}

impl<Inner: Copy> SuffixwiseData<Inner> {
    /// The entries, from the shortest string to the longest.
    pub closed spec fn entries(&self) -> Seq<Inner> {
        self.data.seq()
    }

    /// The length of the shortest string.
    pub closed spec fn spec_min(&self) -> nat {
        self.min_suf_len as nat
    }

    /// The length of the longest string.
    pub closed spec fn spec_max(&self) -> nat {
        self.max_suf_len as nat
    }

    /// The rope keeps its own invariant.
    pub closed spec fn rope_wf(&self) -> bool {
        self.data.wf()
    }

    /// The rope is sound and holds nothing or one entry for every length.
    pub open spec fn wf(&self) -> bool {
        &&& self.rope_wf()
        &&& self.entries().len() == 0 || (self.spec_min() <= self.spec_max() && self.entries().len()
            == self.spec_max() - self.spec_min() + 1)
    }

    /// The data of the state `v` of the automaton `g` is what the entries
    /// given in `ov` and the root's entry `d0` make it.
    pub open spec fn built_for(
        &self,
        g: Seq<NodeView>,
        ov: Seq<Seq<(usize, Inner)>>,
        d0: Inner,
        v: int,
    ) -> bool {
        &&& self.wf()
        &&& self.spec_min() == lo(g, v) + 1
        &&& self.spec_max() == g[v].len
        &&& self.entries() == final_seq(g, ov, d0, v)
    }

    /// Data without entries.
    pub fn empty() -> (r: Self)
        ensures
            r.wf(),
            r.entries().len() == 0,
            r.spec_min() == 0,
            r.spec_max() == 0,
    {
        Self { data: Rope::empty(), min_suf_len: 0, max_suf_len: 0 }
    }

    /// A copy of the data that shares the rope.
    pub fn duplicate(&self) -> (r: Self)
        ensures
            r == *self,
    {
        Self {
            data: self.data.clone(),
            min_suf_len: self.min_suf_len,
            max_suf_len: self.max_suf_len,
        }
    }

    /// The rope of the entries.
    pub fn get_rope(&self) -> (r: &Rope<Inner>)
        ensures
            r.seq() == self.entries(),
            r.wf() == self.rope_wf(),
    {
        &self.data
    }

    /// The length of the shortest string.
    pub fn get_min_suf_len(&self) -> (r: usize)
        ensures
            r == self.spec_min(),
    {
        self.min_suf_len
    }

    /// The length of the longest string.
    pub fn get_max_suf_len(&self) -> (r: usize)
        ensures
            r == self.spec_max(),
    {
        self.max_suf_len
    }

    /// The data with the rope that `f` makes of this one, for the same
    /// lengths.
    pub fn map<NewInner: Copy, F: FnOnce(&Rope<Inner>) -> Rope<NewInner>>(&self, f: F) -> (r:
        SuffixwiseData<NewInner>)
        requires
            call_requires(f, (self.get_rope_spec(),)),
        ensures
            r.spec_min() == self.spec_min(),
            r.spec_max() == self.spec_max(),
            exists|rope: Rope<NewInner>|
                call_ensures(f, (self.get_rope_spec(),), rope) && #[trigger] rope.seq() == r.entries()
                    && rope.wf() == r.rope_wf(),
    {
        let rope = f(&self.data);
        let r = SuffixwiseData {
            data: rope,
            min_suf_len: self.min_suf_len,
            max_suf_len: self.max_suf_len,
        };
        assert(call_ensures(f, (self.get_rope_spec(),), r.data) && r.data.seq() == r.entries());
        r
    }

    /// The rope of the entries, for contracts.
    pub closed spec fn get_rope_spec(&self) -> &Rope<Inner> {
        &self.data
    }

    /// The entry of the string of length `suf_len`, if the state has a
    /// string of this length and is not the root.
    pub fn get(&self, suf_len: usize) -> (r: Option<Inner>)
        requires
            self.wf(),
        ensures
            r == (if self.entries().len() == 0 || self.spec_max() == 0 || self.spec_min() == 0
                || suf_len < self.spec_min() || suf_len > self.spec_max() {
                None
            } else {
                Some(self.entries()[suf_len - self.spec_min()])
            }),
    {
        if self.data.is_empty() || self.max_suf_len == 0 || self.min_suf_len == 0 || suf_len
            < self.min_suf_len || suf_len > self.max_suf_len {
            return None;
        }
        match self.data.query(suf_len - self.min_suf_len) {
            Some(d) => Some(d.get_inner()),
            None => None,
        }
    }

    /// Builds the data of every state of `sam`. The root gets the one entry
    /// `root_entry`; every other state gets, for each length of its strings,
    /// the entry that `overrides` gives last for the state and the length,
    /// or else the entry of the string that is one shorter.
    pub fn build_from_sam<T: TransitionTable>(
        sam: &GeneralSAM<T>,
        overrides: &Vec<Vec<(usize, Inner)>>,
        root_entry: Inner,
    ) -> (res: Vec<Self>)
        requires
            sam.wf(),
            overrides@.len() == sam.nodes().len(),
            overrides_in_range(sam.nodes(), lists_view(overrides@)),
        ensures
            res@.len() == sam.nodes().len(),
            res@[0].wf() && res@[0].entries().len() == 0,
            forall|v: int|
                1 <= v < sam.nodes().len() ==> (#[trigger] res@[v]).built_for(
                    sam.nodes(),
                    lists_view(overrides@),
                    root_entry,
                    v,
                ),
    {
        let ghost g = sam.nodes();
        let ghost ov = lists_view(overrides@);
        let ghost d0 = root_entry;
        let n = sam.num_of_nodes();
        let order = sam.get_topo_and_suf_len_sorted_node_ids();
        let ghost s = order@;
        let mut res: Vec<Self> = Vec::new();
        let mut z: usize = 0;
        while z < n
            invariant
                z <= n,
                res@.len() == z,
                forall|v: int|
                    0 <= v < z ==> (#[trigger] res@[v]).wf() && res@[v].entries().len() == 0,
            decreases n - z,
        {
            res.push(Self::empty());
            z += 1;
        }
        let ghost mut top: Seq<int> = Seq::new(n as nat, |v: int| 0int);
        proof {
            assert(prefix_set(s, 0) =~= Set::<int>::empty());
            assert forall|w: int| 1 <= w < n implies waiting_ok(
                g,
                ov,
                d0,
                prefix_set(s, 0),
                top,
                entries_of(res@),
                w,
            ) by {
                assert(res@[w].entries() =~= inherited_seq(g, ov, d0, w, lo(g, w)));
            }
        }
        let mut i: usize = 0;
        while i < order.len()
            invariant
                i <= s.len(),
                s == order@,
                s == sam.topo_sorted(),
                g == sam.nodes(),
                ov == lists_view(overrides@),
                d0 == root_entry,
                n == g.len(),
                sam.wf(),
                overrides_in_range(g, ov),
                ov.len() == n,
                res@.len() == n,
                top.len() == n,
                res@[0].wf() && res@[0].entries().len() == 0,
                forall|v: int| 0 <= v < n ==> (#[trigger] res@[v]).rope_wf(),
                forall|v: int|
                    1 <= v < n && prefix_set(s, i as int).contains(v) ==> (#[trigger] res@[v]).built_for(
                        g,
                        ov,
                        d0,
                        v,
                    ),
                forall|w: int|
                    1 <= w < n && !prefix_set(s, i as int).contains(w) ==> #[trigger] waiting_ok(
                        g,
                        ov,
                        d0,
                        prefix_set(s, i as int),
                        top,
                        entries_of(res@),
                        w,
                    ),
                forall|w: int|
                    1 <= w < n && !prefix_set(s, i as int).contains(w) ==> #[trigger] covered(
                        g,
                        prefix_set(s, i as int),
                        0,
                        Seq::empty(),
                        top,
                        w,
                    ),
            decreases s.len() - i,
        {
            let node_id = order[i];
            let ghost x = node_id as int;
            let ghost done = prefix_set(s, i as int);
            let ghost none: Seq<(u32, usize)> = Seq::empty();
            let ghost seqs0 = entries_of(res@);
            proof {
                assert(1 <= s[i as int] < n);
                lemma_sorted_prefix(g, s, i as int, x);
                lemma_interval(g, x);
                assert(waiting_ok(g, ov, d0, done, top, seqs0, x));
                assert(seqs0[x] == res@[x].entries());
            }
            let node = match sam.get_node(node_id) {
                Some(node) => node,
                None => {
                    assert(false);
                    return res;
                },
            };
            let max_len = node.max_suffix_len();
            if node_id == SAM_ROOT_NODE_ID {
                let entry = SuffixwiseData { data: Rope::new(root_entry), min_suf_len: 0, max_suf_len: max_len };
                proof {
                    assert(entry.entries() =~= final_seq(g, ov, d0, 1));
                }
                res.set(node_id, entry);
            } else {
                let parent_id = node.get_suffix_parent_id();
                proof {
                    assert(link_ok(g, x));
                    assert(g[parent_id as int].len + 2 <= g.len());
                }
                let parent = match sam.get_node(parent_id) {
                    Some(parent) => parent,
                    None => {
                        assert(false);
                        return res;
                    },
                };
                let min_len = parent.max_suffix_len() + 1;
                proof {
                    // every entry up to the longest string has been handed on
                    let (u, k) = lemma_top_pred(g, x);
                    lemma_pred_cases(g, u, k, x);
                    lemma_sorted_prefix(g, s, i as int, u);
                    assert(covered(g, done, 0, Seq::empty(), top, x));
                    assert(edge(g, u, k, x) && relaxed(done, 0, Seq::empty(), u, k));
                    let t = top[x];
                    let kt = choose|kt: u32| #[trigger] edge(g, t, kt, x);
                    lemma_pred_cases(g, t, kt, x);
                    assert(top_end(g, x, t) == g[x].len);
                }
                let mut rope = res[node_id].data.clone();
                let given = &overrides[node_id];
                assert(given@ == ov[x]);
                let ghost base = inherited_seq(g, ov, d0, x, g[x].len as int);
                assert(rope.seq() == base);
                let mut j: usize = 0;
                while j < given.len()
                    invariant
                        j <= given@.len(),
                        given@ == ov[x],
                        graph_wf(g),
                        2 <= x < g.len(),
                        g.len() <= usize::MAX,
                        overrides_in_range(g, ov),
                        min_len == lo(g, x) + 1,
                        max_len == g[x].len,
                        rope.wf(),
                        base.len() == g[x].len - lo(g, x),
                        rope.seq().len() == base.len(),
                        forall|a: int|
                            0 <= a < base.len() ==> (#[trigger] rope.seq()[a]) == (match override_at(
                                ov[x].take(j as int),
                                lo(g, x) + 1 + a,
                            ) {
                                Some(d) => d,
                                None => base[a],
                            }),
                    decreases given@.len() - j,
                {
                    let (len, data) = given[j];
                    proof {
                        assert(lo(g, x) < ov[x][j as int].0 <= g[x].len);
                        lemma_interval(g, x);
                        assert(g[x].len + 2 <= g.len());
                    }
                    let ghost before = rope.seq();
                    let (left, right) = rope.split(len - min_len);
                    let (_, right) = right.split(1);
                    rope = left.merge(&Rope::new(data)).merge(&right);
                    proof {
                        let p = len - min_len;
                        assert(rope.seq() =~= before.update(p, data));
                        assert forall|a: int| 0 <= a < base.len() implies (#[trigger] rope.seq()[a])
                            == (match override_at(ov[x].take(j as int + 1), lo(g, x) + 1 + a) {
                            Some(d) => d,
                            None => base[a],
                        }) by {
                            lemma_override_step(ov[x], j as int, lo(g, x) + 1 + a);
                            assert(before[a] == (match override_at(
                                ov[x].take(j as int),
                                lo(g, x) + 1 + a,
                            ) {
                                Some(d) => d,
                                None => base[a],
                            }));
                        }
                    }
                    j += 1;
                }
                proof {
                    assert(ov[x].take(j as int) =~= ov[x]);
                    lemma_overrides_done(g, ov, d0, x, rope.seq());
                    lemma_interval(g, x);
                }
                let entry = SuffixwiseData { data: rope, min_suf_len: min_len, max_suf_len: max_len };
                res.set(node_id, entry);
            }
            let ghost done1 = prefix_set(s, i as int + 1);
            let ghost seqs1 = entries_of(res@);
            proof {
                assert(done1 =~= done.insert(x)) by {
                    assert forall|y: int| done1.contains(y) <==> done.insert(x).contains(y) by {
                        if done1.contains(y) {
                            let a = choose|a: int| 0 <= a < i + 1 && a < s.len() && (#[trigger] s[a]) == y;
                            if a < i {
                                assert(done.contains(y));
                            }
                        }
                        if done.contains(y) {
                            let a = choose|a: int| 0 <= a < i && a < s.len() && (#[trigger] s[a]) == y;
                            assert(0 <= a < i + 1 && s[a] == y);
                        }
                        if y == x {
                            assert(s[i as int] == y);
                        }
                    }
                }
                assert(res@[x].built_for(g, ov, d0, x));
                assert forall|w: int| 1 <= w < n && !done1.contains(w) implies #[trigger] waiting_ok(
                    g,
                    ov,
                    d0,
                    done1,
                    top,
                    seqs1,
                    w,
                ) by {
                    assert(waiting_ok(g, ov, d0, done, top, seqs0, w));
                    assert(seqs1[w] == seqs0[w]);
                }
                assert forall|w: int| 1 <= w < n && !done1.contains(w) implies #[trigger] covered(
                    g,
                    done1,
                    x,
                    none,
                    top,
                    w,
                ) by {
                    assert(covered(g, done, 0, Seq::empty(), top, w));
                    assert forall|u: int, k: u32| #[trigger]
                        edge(g, u, k, w) && relaxed(done1, x, none, u, k) implies top[w] != 0
                        && g[u].len <= g[top[w]].len by {
                        assert(u != x);
                        assert(relaxed(done, 0, Seq::empty(), u, k));
                    }
                }
            }
            let pairs = node.get_trans().iter();
            let ghost ex = pairs@;
            let mut e: usize = 0;
            proof {
                assert(ex.take(0) =~= none);
                assert forall|w: int| 1 <= w < n && !done1.contains(w) && top[w] == x implies exists|
                    idx: int,
                | 0 <= idx < e && (#[trigger] ex[idx]).1 == w by {
                    assert(waiting_ok(g, ov, d0, done, top, seqs0, w));
                    assert(!done.contains(x));
                }
            }
            while e < pairs.len()
                invariant
                    e <= ex.len(),
                    ex == pairs@,
                    entries_agree(ex, g[x].trans),
                    done1 == prefix_set(s, i as int + 1),
                    done1.contains(x),
                    x == s[i as int],
                    0 <= i < s.len(),
                    1 <= x < n,
                    n == g.len(),
                    graph_wf(g),
                    covers(g, s),
                    len_sorted(g, s),
                    res@.len() == n,
                    top.len() == n,
                    ov.len() == n,
                    res@[0].wf() && res@[0].entries().len() == 0,
                    forall|v: int| 0 <= v < n ==> (#[trigger] res@[v]).rope_wf(),
                    forall|v: int|
                        1 <= v < n && done1.contains(v) ==> (#[trigger] res@[v]).built_for(g, ov, d0, v),
                    forall|w: int|
                        1 <= w < n && !done1.contains(w) ==> #[trigger] waiting_ok(
                            g,
                            ov,
                            d0,
                            done1,
                            top,
                            entries_of(res@),
                            w,
                        ),
                    forall|w: int|
                        1 <= w < n && !done1.contains(w) ==> #[trigger] covered(
                            g,
                            done1,
                            x,
                            ex.take(e as int),
                            top,
                            w,
                        ),
                    forall|w: int|
                        1 <= w < n && !done1.contains(w) && top[w] == x ==> exists|idx: int|
                            0 <= idx < e && (#[trigger] ex[idx]).1 == w,
                    x == node_id,
                decreases ex.len() - e,
            {
                let target_id = pairs[e].1;
                let ghost k = ex[e as int].0;
                let ghost w = target_id as int;
                let ghost seqs = entries_of(res@);
                let ghost top0 = top;
                proof {
                    assert(g[x].trans.contains_key(k) && g[x].trans[k] == target_id);
                    assert(edge(g, x, k, w));
                    lemma_pred_cases(g, x, k, w);
                    lemma_interval(g, x);
                    lemma_interval(g, w);
                    lemma_sorted_prefix(g, s, i as int, w);
                    assert(!prefix_set(s, i as int).contains(w));
                    assert(!done1.contains(w)) by {
                        if done1.contains(w) {
                            let a = choose|a: int| 0 <= a < i + 1 && a < s.len() && (#[trigger] s[a]) == w;
                            if a < i {
                                assert(prefix_set(s, i as int).contains(w));
                            }
                        }
                    }
                    assert(waiting_ok(g, ov, d0, done1, top, seqs, w));
                    assert(covered(g, done1, x, ex.take(e as int), top, w));
                    let t = top[w];
                    // the state has not been handed on to `w` yet
                    if t == x {
                        let idx = choose|idx: int| 0 <= idx < e && (#[trigger] ex[idx]).1 == w;
                        assert(ex[idx].0 != ex[e as int].0);
                        assert(g[x].trans.contains_key(ex[idx].0));
                        assert(preds_apart(g, x, ex[idx].0, x, k));
                        assert(false);
                    }
                    if t != 0 {
                        let kt = choose|kt: u32| #[trigger] edge(g, t, kt, w);
                        lemma_pred_cases(g, t, kt, w);
                        assert(done1.contains(t));
                        let a = choose|a: int| 0 <= a < i + 1 && a < s.len() && (#[trigger] s[a]) == t;
                        assert(a < i);
                        assert(prefix_set(s, i as int).contains(t));
                        lemma_sorted_prefix(g, s, i as int, t);
                        if lowest_pred(g, x, w) {
                            lemma_lowest_first(g, x, k, w, t, kt);
                            assert(false);
                        } else {
                            let p = g[x].link as int;
                            lemma_next_pred(g, x, k, w, t, kt);
                            lemma_sorted_prefix(g, s, i as int, p);
                            assert(link_ok(g, x));
                            assert(done1.contains(p));
                            assert(edge(g, p, k, w) && relaxed(done1, x, ex.take(e as int), p, k));
                            assert(g[t].len == g[p].len);
                        }
                    } else {
                        if !lowest_pred(g, x, w) {
                            let p = g[x].link as int;
                            assert(link_ok(g, x));
                            lemma_sorted_prefix(g, s, i as int, p);
                            assert(done1.contains(p));
                            assert(edge(g, p, k, w) && relaxed(done1, x, ex.take(e as int), p, k));
                            assert(false);
                        }
                    }
                    assert(top_end(g, w, t) == lo(g, x) + 1);
                    lemma_merge_step(g, ov, d0, x, k, w, top_end(g, w, t));
                    assert(g[w].len + 2 <= g.len());
                    assert(res@[x].built_for(g, ov, d0, x));
                    assert(seqs[w] == res@[w].entries());
                }
                let source = res[node_id].data.clone();
                let merged = res[target_id].data.merge(&source);
                res[target_id].data = merged;
                proof {
                    top = top.update(w, x);
                    let seqs2 = entries_of(res@);
                    assert(seqs2[w] == inherited_seq(g, ov, d0, w, g[x].len as int + 1));
                    assert forall|v: int| 0 <= v < n implies (#[trigger] res@[v]).rope_wf() by {}
                    assert forall|w2: int| 1 <= w2 < n && !done1.contains(w2) implies #[trigger] waiting_ok(
                        g,
                        ov,
                        d0,
                        done1,
                        top,
                        seqs2,
                        w2,
                    ) by {
                        assert(waiting_ok(g, ov, d0, done1, top0, seqs, w2));
                        if w2 != w {
                            assert(seqs2[w2] == seqs[w2]);
                            assert(top[w2] == top0[w2]);
                        }
                    }
                    assert forall|w2: int| 1 <= w2 < n && !done1.contains(w2) implies #[trigger] covered(
                        g,
                        done1,
                        x,
                        ex.take(e as int + 1),
                        top,
                        w2,
                    ) by {
                        assert(covered(g, done1, x, ex.take(e as int), top0, w2));
                        if w2 == w {
                            assert forall|u: int, k2: u32| #[trigger]
                                edge(g, u, k2, w2) && relaxed(done1, x, ex.take(e as int + 1), u, k2) implies top[w2]
                                != 0 && g[u].len <= g[top[w2]].len by {
                                if u != x {
                                    let a = choose|a: int|
                                        0 <= a < i + 1 && a < s.len() && (#[trigger] s[a]) == u;
                                    assert(prefix_set(s, i as int).contains(u));
                                    lemma_pred_cases(g, u, k2, w2);
                                    lemma_sorted_prefix(g, s, i as int, u);
                                }
                            }
                        } else {
                            assert(seqs2[w2] == seqs[w2]);
                            assert(top[w2] == top0[w2]);
                            assert forall|u: int, k2: u32| #[trigger]
                                edge(g, u, k2, w2) && relaxed(done1, x, ex.take(e as int + 1), u, k2) implies top[w2]
                                != 0 && g[u].len <= g[top[w2]].len by {
                                if u == x {
                                    let idx = choose|idx: int|
                                        0 <= idx < ex.take(e as int + 1).len() && (
                                        #[trigger] ex.take(e as int + 1)[idx]).0 == k2;
                                    assert(ex.take(e as int + 1)[idx] == ex[idx]);
                                    assert(g[x].trans[ex[idx].0] == ex[idx].1);
                                    if idx == e {
                                        assert(false);
                                    }
                                    assert(ex.take(e as int)[idx] == ex[idx]);
                                    assert(relaxed(done1, x, ex.take(e as int), u, k2));
                                } else {
                                    assert(relaxed(done1, x, ex.take(e as int), u, k2));
                                }
                            }
                        }
                    }
                    assert forall|w2: int| 1 <= w2 < n && !done1.contains(w2) && top[w2] == x implies exists|
                        idx: int,
                    | 0 <= idx < e + 1 && (#[trigger] ex[idx]).1 == w2 by {
                        if w2 == w {
                            assert(ex[e as int].1 == w2);
                        } else {
                            let idx = choose|idx: int| 0 <= idx < e && (#[trigger] ex[idx]).1 == w2;
                            assert(0 <= idx < e + 1 && ex[idx].1 == w2);
                        }
                    }
                    assert forall|v: int| 1 <= v < n && done1.contains(v) implies (#[trigger] res@[v]).built_for(
                        g,
                        ov,
                        d0,
                        v,
                    ) by {}
                }
                let ghost walked = ex.take(e as int + 1);
                e += 1;
                assert(ex.take(e as int) == walked);
            }
            proof {
                assert(ex.take(e as int) =~= ex);
                let seqs3 = entries_of(res@);
                assert forall|w: int| 1 <= w < n && !done1.contains(w) implies #[trigger] covered(
                    g,
                    done1,
                    0,
                    Seq::empty(),
                    top,
                    w,
                ) by {
                    assert(covered(g, done1, x, ex, top, w));
                    assert forall|u: int, k2: u32| #[trigger]
                        edge(g, u, k2, w) && relaxed(done1, 0, Seq::empty(), u, k2) implies top[w] != 0
                        && g[u].len <= g[top[w]].len by {
                        if u == x {
                            let idx = choose|idx: int| 0 <= idx < ex.len() && (#[trigger] ex[idx]).0 == k2;
                        }
                        assert(relaxed(done1, x, ex, u, k2));
                    }
                }
            }
            i += 1;
        }
        proof {
            assert forall|v: int| 1 <= v < n implies (#[trigger] res@[v]).built_for(g, ov, d0, v) by {
                assert(s.contains(v as usize));
                let a = choose|a: int| 0 <= a < s.len() && s[a] == v as usize;
                assert(prefix_set(s, s.len() as int).contains(v));
            }
        }
        res
    }
}

/// The entries of every state.
pub open spec fn entries_of<Inner: Copy>(s: Seq<SuffixwiseData<Inner>>) -> Seq<Seq<Inner>> {
    Seq::new(s.len(), |v: int| s[v].entries())
}

/// A word of the vocabulary as the data on the states knows it: what the
/// caller made of its node in the trie, and its length.
pub struct SuffixInTrie<Digested> {
    pub digested_trie_node: Digested,
    pub seq_len: usize,
}

impl<Digested: Copy> Clone for SuffixInTrie<Digested> {
    fn clone(&self) -> (r: Self)
        ensures
            r == *self,
    {
        SuffixInTrie { digested_trie_node: self.digested_trie_node, seq_len: self.seq_len }
    }
}

impl<Digested: Copy> Copy for SuffixInTrie<Digested> {

}

/// Data on the states whose entries carry no tag of their own.
pub type UntaggedSuffixData<Inner> = SuffixwiseData<RopeUntaggedInner<Inner>>;

/// Data on the states that says, for every string of a state, which word of
/// the vocabulary is the longest that the string begins with, if any.
pub type SuffixInTrieData<D> = UntaggedSuffixData<Option<SuffixInTrie<D>>>;

/// Every entry that is given names a word of the length that it is given
/// for.
pub open spec fn tokens_ok<D>(
    ov: Seq<Seq<(usize, RopeUntaggedInner<Option<SuffixInTrie<D>>>)>>,
) -> bool {
    forall|v: int, j: int|
        0 <= v < ov.len() && 0 <= j < ov[v].len() ==> ((#[trigger] ov[v][j]).1.0 matches Some(tok)
            ==> tok.seq_len == ov[v][j].0)
}

/// The entry names no word, or one that is not empty and no longer than
/// `l`.
pub open spec fn entry_bounded<D>(e: RopeUntaggedInner<Option<SuffixInTrie<D>>>, l: int) -> bool {
    e.0 matches Some(tok) ==> 1 <= tok.seq_len <= l
}

/// The entry of a string names no word that is longer than the string.
pub proof fn lemma_entry_bounded<D>(
    g: Seq<NodeView>,
    ov: Seq<Seq<(usize, RopeUntaggedInner<Option<SuffixInTrie<D>>>)>>,
    v: int,
    l: int,
)
    requires
        graph_wf(g),
        ov.len() == g.len(),
        overrides_in_range(g, ov),
        tokens_ok(ov),
        1 <= v < g.len(),
        lo(g, v) < l <= g[v].len,
    ensures
        entry_bounded(suffix_entry(g, ov, RopeUntaggedInner(None), v, l), l),
    decreases l,
{
    if v != 1 {
        lemma_interval(g, v);
        if override_at(ov[v], l) is Some {
            let j = lemma_override_witness(ov[v], l);
            assert(ov[v][j].0 == l);
        } else {
            lemma_carrier_exists(g, v, l);
            let c = carrier(g, v, l);
            lemma_entry_bounded(g, ov, c, l - 1);
        }
    }
}

/// The data of every state of `g` is in place: it spans the lengths of the
/// strings of its state, and no entry names a word that is longer than its
/// string.
pub open spec fn data_ready<D: Copy>(g: Seq<NodeView>, data: Seq<SuffixInTrieData<D>>) -> bool {
    &&& data.len() == g.len()
    &&& forall|v: int|
        1 <= v < g.len() ==> {
            &&& (#[trigger] data[v]).wf()
            &&& data[v].spec_min() == lo(g, v) + 1
            &&& data[v].spec_max() == g[v].len
            &&& data[v].entries().len() == g[v].len - lo(g, v)
            &&& forall|k: int|
                0 <= k < data[v].entries().len() ==> entry_bounded(
                    #[trigger] data[v].entries()[k],
                    lo(g, v) + 1 + k,
                )
        }
}

/// The sizes of the subtrees that wait in a queue.
pub open spec fn along_sizes<TN: TrieNodeAlike>(q: Seq<(usize, TN, usize)>) -> Seq<nat> {
    Seq::new(q.len(), |i: int| q[i].1.size())
}

/// Whatever `f` returns for a node is what `tok` makes of it.
pub open spec fn digests<TN, D, F: Fn(&TN) -> D>(f: F, tok: spec_fn(TN) -> D) -> bool {
    forall|tn: TN, d: D| #[trigger] call_ensures(f, (&tn,), d) ==> d == tok(tn)
}

/// The pair `pair` was noted at the state `v` for the word `x` of the tree,
/// with what `f` returned for its node.
pub open spec fn recorded_for<TN: TrieNodeAlike, D, F: Fn(&TN) -> D>(
    g: Seq<NodeView>,
    root: TN,
    f: F,
    v: int,
    pair: (usize, RopeUntaggedInner<Option<SuffixInTrie<D>>>),
    x: Seq<u32>,
) -> bool {
    &&& x.len() > 0
    &&& walk(root, x) is Some
    &&& walk(root, x)->0.accepting()
    &&& run(g, 1, x) == v
    &&& x.len() == pair.0
    &&& exists|d: D| #[trigger] call_ensures(f, (&walk(root, x)->0,), d) && pair.1 == entry_of(d, x.len() as int)
}

/// The pair `pair` was noted at the state `v` for some word of the tree.
pub open spec fn recorded<TN: TrieNodeAlike, D, F: Fn(&TN) -> D>(
    g: Seq<NodeView>,
    root: TN,
    f: F,
    v: int,
    pair: (usize, RopeUntaggedInner<Option<SuffixInTrie<D>>>),
) -> bool {
    exists|x: Seq<u32>| #[trigger] recorded_for(g, root, f, v, pair, x)
}

/// Where `w` is a word of the tree that is not empty, its pair is noted.
pub open spec fn noted<TN: TrieNodeAlike, D>(
    g: Seq<NodeView>,
    root: TN,
    ov: Seq<Seq<(usize, RopeUntaggedInner<Option<SuffixInTrie<D>>>)>>,
    w: Seq<u32>,
) -> bool {
    w.len() > 0 && walk(root, w)->0.accepting() ==> has_given(g, ov, w)
}

/// Every pair that was noted stands for a word of the tree.
pub open spec fn all_recorded<TN: TrieNodeAlike, D, F: Fn(&TN) -> D>(
    g: Seq<NodeView>,
    root: TN,
    f: F,
    ov: Seq<Seq<(usize, RopeUntaggedInner<Option<SuffixInTrie<D>>>)>>,
) -> bool {
    forall|v: int, j: int|
        2 <= v < g.len() && 0 <= j < ov[v].len() ==> recorded(g, root, f, v, #[trigger] ov[v][j])
}

/// What was noted for the words of a tree that the automaton reads is what
/// the vocabulary of the tree holds.
pub proof fn lemma_given_from_records<TN: TrieNodeAlike, D, F: Fn(&TN) -> D>(
    g: Seq<NodeView>,
    root: TN,
    f: F,
    tok: spec_fn(TN) -> D,
    ov: Seq<Seq<(usize, RopeUntaggedInner<Option<SuffixInTrie<D>>>)>>,
)
    requires
        graph_wf(g),
        ov.len() == g.len(),
        all_recorded(g, root, f, ov),
        forall|w: Seq<u32>| #[trigger] walk(root, w) is Some ==> noted(g, root, ov, w),
        digests(f, tok),
        reads_tree(g, root),
    ensures
        given_is_vocab(g, ov, tree_vocab(root, tok)),
{
    reveal(given_is_vocab);
    let vocab = tree_vocab(root, tok);
    assert forall|v: int, j: int| 2 <= v < g.len() && 0 <= j < ov[v].len() implies from_vocab(
        g,
        vocab,
        v,
        #[trigger] ov[v][j],
    ) by {
        let pair = ov[v][j];
        assert(recorded(g, root, f, v, pair));
        let x = choose|x: Seq<u32>| #[trigger] recorded_for(g, root, f, v, pair, x);
        let tn = walk(root, x)->0;
        let d = choose|d: D| #[trigger] call_ensures(f, (&tn,), d) && pair.1 == entry_of(d, x.len() as int);
        assert(d == tok(tn));
        assert(given_by(g, vocab, v, pair, x));
    }
    assert forall|x: Seq<u32>| #[trigger] vocab.contains_key(x) implies has_given(g, ov, x) by {
        assert(walk(root, x) is Some);
        assert(noted(g, root, ov, x));
    }
}

impl<D: Copy> SuffixInTrieData<D> {
    /// Builds the data that the tokenizer reads. The tree below `trie_node`
    /// is walked level by level together with the automaton; every word
    /// that ends at an accepting node is given, with what `f` makes of the
    /// node, to the state that the word leads to, for the length of the
    /// word. Where the automaton reads the words of the tree, the data
    /// names, for every string that the automaton reads, the longest word
    /// that the string begins with.
    pub fn build<T: TransitionTable, TN: TrieNodeAlike, F: Fn(&TN) -> D>(
        sam: &GeneralSAM<T>,
        trie_node: TN,
        f: F,
    ) -> (res: Vec<Self>)
        requires
            sam.wf(),
            trie_node.wf(),
            forall|tn: TN| call_requires(f, (&tn,)),
        ensures
            data_ready(sam.nodes(), res@),
            forall|tok: spec_fn(TN) -> D|
                (#[trigger] digests(f, tok)) && reads_tree(sam.nodes(), trie_node) ==> data_exact(
                    sam.nodes(),
                    res@,
                    tree_vocab(trie_node, tok),
                ),
    {
        let ghost g = sam.nodes();
        let ghost root = trie_node;
        let n = sam.num_of_nodes();
        let mut sam_to_data: Vec<Vec<(usize, RopeUntaggedInner<Option<SuffixInTrie<D>>>)>> = Vec::new();
        let mut z: usize = 0;
        while z < n
            invariant
                z <= n,
                sam_to_data@.len() == z,
                forall|v: int| 0 <= v < z ==> (#[trigger] sam_to_data@[v])@.len() == 0,
            decreases n - z,
        {
            sam_to_data.push(Vec::new());
            z += 1;
        }
        let mut queue: VecDeque<(usize, TN, usize)> = VecDeque::new();
        let start = sam.get_root_state();
        queue.push_back((start.node_id, trie_node, 0));
        let ghost none = Seq::<u32>::empty();
        let ghost mut words: Seq<Seq<u32>> = seq![none];
        let ghost mut attached: Set<Seq<u32>> = set![none];
        proof {
            lemma_interval(g, 1);
            assert(overrides_in_range(g, lists_view(sam_to_data@)));
            assert(tokens_ok(lists_view(sam_to_data@)));
            assert(words[0] == none);
            assert(in_words(words, none));
        }
        loop
            invariant
                g == sam.nodes(),
                root == trie_node,
                n == g.len(),
                sam.wf(),
                sam_to_data@.len() == n,
                forall|tn: TN| call_requires(f, (&tn,)),
                overrides_in_range(g, lists_view(sam_to_data@)),
                tokens_ok(lists_view(sam_to_data@)),
                all_recorded(g, root, f, lists_view(sam_to_data@)),
                words.len() == queue@.len(),
                attached.contains(Seq::<u32>::empty()),
                forall|i: int|
                    0 <= i < queue@.len() ==> {
                        &&& 1 <= (#[trigger] queue@[i]).0 < n
                        &&& queue@[i].1.wf()
                        &&& lo(g, queue@[i].0 as int) < queue@[i].2 <= g[queue@[i].0 as int].len
                    },
                forall|i: int|
                    0 <= i < queue@.len() ==> attached.contains(#[trigger] words[i]) && walk(
                        root,
                        words[i],
                    ) == Some(queue@[i].1) && run(g, 1, words[i]) == queue@[i].0 && words[i].len()
                        == queue@[i].2,
                forall|w: Seq<u32>| #[trigger]
                    attached.contains(w) ==> walk(root, w) is Some && (in_words(words, w) || noted(
                        g,
                        root,
                        lists_view(sam_to_data@),
                        w,
                    )),
                reads_tree(g, root) ==> forall|w: Seq<u32>| #[trigger]
                    attached.contains(w) ==> in_words(words, w) || kids_attached(attached, root, w),
            ensures
                reads_tree(g, root) ==> forall|w: Seq<u32>| #[trigger]
                    walk(root, w) is Some ==> noted(g, root, lists_view(sam_to_data@), w),
            decreases sum_nat(along_sizes(queue@)),
        {
            let ghost queue0 = queue@;
            let ghost words0 = words;
            let (state_id, tn, depth) = match queue.pop_front() {
                Some(item) => item,
                None => {
                    proof {
                        if reads_tree(g, root) {
                            assert forall|w: Seq<u32>| #[trigger] walk(root, w) is Some implies noted(
                                g,
                                root,
                                lists_view(sam_to_data@),
                                w,
                            ) by {
                                assert forall|x: Seq<u32>| #[trigger] attached.contains(x) implies walk(
                                    root,
                                    x,
                                ) is Some && kids_attached(attached, root, x) by {
                                    if in_words(words, x) {
                                        let i = choose|i: int| 0 <= i < words.len() && #[trigger] words[i] == x;
                                    }
                                }
                                lemma_all_attached(attached, root, w);
                                if in_words(words, w) {
                                    let i = choose|i: int| 0 <= i < words.len() && #[trigger] words[i] == w;
                                }
                            }
                        }
                    }
                    break ;
                },
            };
            assert(queue0[0] == (state_id, tn, depth));
            let ghost x = state_id as int;
            let ghost cw = words[0];
            let ghost base = sum_nat(along_sizes(queue@));
            proof {
                words = words.drop_first();
                assert(words0[0] == cw);
                assert(queue@ =~= queue0.drop_first());
                crate::sam::lemma_sum_drop_first(along_sizes(queue0));
                assert(along_sizes(queue0).drop_first() =~= along_sizes(queue@));
                assert forall|i: int| 0 <= i < queue@.len() implies {
                    &&& 1 <= (#[trigger] queue@[i]).0 < n
                    &&& queue@[i].1.wf()
                    &&& lo(g, queue@[i].0 as int) < queue@[i].2 <= g[queue@[i].0 as int].len
                } by {
                    assert(queue@[i] == queue0[i + 1]);
                }
                assert forall|i: int| 0 <= i < queue@.len() implies attached.contains(
                    #[trigger] words[i],
                ) && walk(root, words[i]) == Some(queue@[i].1) && run(g, 1, words[i]) == queue@[i].0
                    && words[i].len() == queue@[i].2 by {
                    assert(words[i] == words0[i + 1]);
                    assert(queue@[i] == queue0[i + 1]);
                }
            }
            if tn.is_accepting() {
                let digest = f(&tn);
                let entry = RopeUntaggedInner(
                    Some(SuffixInTrie { digested_trie_node: digest, seq_len: depth }),
                );
                let ghost before = lists_view(sam_to_data@);
                sam_to_data[state_id].push((depth, entry));
                proof {
                    let after = lists_view(sam_to_data@);
                    assert(after[x] =~= before[x].push((depth, entry)));
                    assert forall|v: int| 0 <= v < n && v != x implies after[v] == before[v] by {}
                    lemma_lists_grow(g, root, f, before, after, x, (depth, entry));
                    assert forall|v: int, j: int|
                        2 <= v < g.len() && 0 <= j < after[v].len() implies lo(g, v) < (
                    #[trigger] after[v][j]).0 <= g[v].len by {
                        if v == x && j == before[x].len() {
                        } else {
                            if v != x {
                                assert(after[v] == before[v]);
                            }
                            assert(after[v][j] == before[v][j]);
                        }
                    }
                    assert forall|v: int, j: int|
                        0 <= v < after.len() && 0 <= j < after[v].len() implies ((
                    #[trigger] after[v][j]).1.0 matches Some(tok) ==> tok.seq_len == after[v][j].0) by {
                        if v == x && j == before[x].len() {
                        } else {
                            if v != x {
                                assert(after[v] == before[v]);
                            }
                            assert(after[v][j] == before[v][j]);
                        }
                    }
                    if cw.len() > 0 {
                        lemma_interval(g, x);
                        assert(call_ensures(f, (&tn,), digest));
                        assert(entry == entry_of(digest, cw.len() as int));
                        assert(recorded_for(g, root, f, x, (depth, entry), cw));
                        assert(recorded(g, root, f, x, (depth, entry)));
                        assert(after[x][before[x].len() as int] == (depth, entry));
                        assert(has_given(g, after, cw));
                    }
                    assert(all_recorded(g, root, f, after)) by {
                        assert forall|v: int, j: int|
                            2 <= v < g.len() && 0 <= j < after[v].len() implies recorded(
                            g,
                            root,
                            f,
                            v,
                            #[trigger] after[v][j],
                        ) by {
                            if v == x && j == before[x].len() {
                            } else {
                                if v != x {
                                    assert(after[v] == before[v]);
                                }
                                assert(after[v][j] == before[v][j]);
                                assert(recorded(g, root, f, v, before[v][j]));
                            }
                        }
                    }
                    assert forall|w: Seq<u32>| #[trigger] attached.contains(w) implies walk(root, w) is Some
                        && (in_words(words, w) || noted(g, root, after, w) || w == cw) by {
                        if in_words(words0, w) {
                            let i = choose|i: int| 0 <= i < words0.len() && #[trigger] words0[i] == w;
                            if i > 0 {
                                assert(words[i - 1] == w);
                            }
                        }
                    }
                }
            }
            proof {
                let now = lists_view(sam_to_data@);
                assert(noted(g, root, now, cw));
                assert forall|w: Seq<u32>| #[trigger] attached.contains(w) implies walk(root, w) is Some
                    && (in_words(words, w) || noted(g, root, now, w)) by {
                    if in_words(words0, w) {
                        let i = choose|i: int| 0 <= i < words0.len() && #[trigger] words0[i] == w;
                        if i > 0 {
                            assert(words[i - 1] == w);
                        }
                    }
                }
                if reads_tree(g, root) {
                    assert forall|w: Seq<u32>| #[trigger] attached.contains(w) implies in_words(words, w)
                        || kids_attached(attached, root, w) || w == cw by {
                        if in_words(words0, w) {
                            let i = choose|i: int| 0 <= i < words0.len() && #[trigger] words0[i] == w;
                            if i > 0 {
                                assert(words[i - 1] == w);
                            }
                        }
                    }
                }
            }
            let children = tn.next_states();
            let state = sam.get_state(state_id);
            let mut j: usize = 0;
            proof {
                assert(Seq::new(children@.len(), |i: int| children@[i].1.size()).take(0)
                    =~= Seq::<nat>::empty());
            }
            while j < children.len()
                invariant
                    j <= children@.len(),
                    g == sam.nodes(),
                    n == g.len(),
                    sam.wf(),
                    state.sam == sam,
                    state.node_id == state_id,
                    1 <= state_id < n,
                    lo(g, x) < depth <= g[x].len,
                    x == state_id,
                    children@ == tn.children(),
                    walk(root, cw) == Some(tn),
                    run(g, 1, cw) == x,
                    cw.len() == depth,
                    attached.contains(cw),
                    words.len() == queue@.len(),
                    attached.contains(Seq::<u32>::empty()),
                    noted(g, root, lists_view(sam_to_data@), cw),
                    forall|i: int| 0 <= i < children@.len() ==> (#[trigger] children@[i]).1.wf(),
                    forall|i: int, k: int|
                        0 <= i < k < children@.len() ==> (#[trigger] children@[i]).0 != (#[trigger] children@[k]).0,
                    forall|i: int|
                        0 <= i < queue@.len() ==> {
                            &&& 1 <= (#[trigger] queue@[i]).0 < n
                            &&& queue@[i].1.wf()
                            &&& lo(g, queue@[i].0 as int) < queue@[i].2 <= g[queue@[i].0 as int].len
                        },
                    forall|i: int|
                        0 <= i < queue@.len() ==> attached.contains(#[trigger] words[i]) && walk(
                            root,
                            words[i],
                        ) == Some(queue@[i].1) && run(g, 1, words[i]) == queue@[i].0 && words[i].len()
                            == queue@[i].2,
                    forall|w: Seq<u32>| #[trigger]
                        attached.contains(w) ==> walk(root, w) is Some && (in_words(words, w) || noted(
                            g,
                            root,
                            lists_view(sam_to_data@),
                            w,
                        )),
                    reads_tree(g, root) ==> forall|w: Seq<u32>| #[trigger]
                        attached.contains(w) ==> in_words(words, w) || kids_attached(attached, root, w)
                            || w == cw,
                    reads_tree(g, root) ==> forall|i: int|
                        0 <= i < j ==> attached.contains(cw.push((#[trigger] children@[i]).0)),
                    sum_nat(along_sizes(queue@)) <= base + sum_nat(
                        Seq::new(children@.len(), |i: int| children@[i].1.size()).take(j as int),
                    ),
                decreases children@.len() - j,
            {
                let (key, child) = children[j];
                let ghost queue_before = queue@;
                let ghost words_before = words;
                let ghost attached_before = attached;
                let ghost nw = cw.push(key);
                proof {
                    assert(nw.drop_last() =~= cw);
                    assert(nw.last() == key);
                    let c = tn.children();
                    assert(c[j as int].0 == key);
                    let i0 = choose|i: int| 0 <= i < c.len() && (#[trigger] c[i]).0 == key;
                    if i0 < j {
                        assert(children@[i0].0 != children@[j as int].0);
                    } else if i0 > j {
                        assert(children@[j as int].0 != children@[i0].0);
                    }
                    assert(child_at(tn, key) == Some(child));
                    assert(walk(root, nw) == Some(child));
                    if reads_tree(g, root) {
                        lemma_reads_word(g, root, nw);
                    }
                }
                match state.get_non_nil_trans(&key) {
                    Some(next) => {
                        proof {
                            assert(g[x].trans.contains_key(key));
                            assert(edge_ok(g, x, key));
                            let w = g[x].trans[key] as int;
                            assert(g[w].len + 2 <= g.len());
                        }
                        queue.push_back((next.node_id, child, depth + 1));
                        proof {
                            words = words.push(nw);
                            attached = attached.insert(nw);
                            assert forall|i: int| 0 <= i < queue@.len() implies {
                                &&& 1 <= (#[trigger] queue@[i]).0 < n
                                &&& queue@[i].1.wf()
                                &&& lo(g, queue@[i].0 as int) < queue@[i].2 <= g[queue@[i].0 as int].len
                            } by {
                                if i < queue_before.len() {
                                    assert(queue@[i] == queue_before[i]);
                                }
                            }
                            assert forall|i: int| 0 <= i < queue@.len() implies attached.contains(
                                #[trigger] words[i],
                            ) && walk(root, words[i]) == Some(queue@[i].1) && run(g, 1, words[i])
                                == queue@[i].0 && words[i].len() == queue@[i].2 by {
                                if i < queue_before.len() {
                                    assert(words[i] == words_before[i]);
                                    assert(queue@[i] == queue_before[i]);
                                    assert(attached_before.contains(words_before[i]));
                                } else {
                                    assert(words[i] == nw);
                                }
                            }
                            assert forall|w: Seq<u32>| #[trigger] attached.contains(w) implies walk(
                                root,
                                w,
                            ) is Some && (in_words(words, w) || noted(g, root, lists_view(sam_to_data@), w)) by {
                                if w == nw {
                                    assert(words[words.len() - 1] == nw);
                                } else {
                                    assert(attached_before.contains(w));
                                    if in_words(words_before, w) {
                                        let i = choose|i: int|
                                            0 <= i < words_before.len() && #[trigger] words_before[i] == w;
                                        assert(words[i] == w);
                                    }
                                }
                            }
                            if reads_tree(g, root) {
                                assert forall|w: Seq<u32>| #[trigger] attached.contains(w) implies in_words(
                                    words,
                                    w,
                                ) || kids_attached(attached, root, w) || w == cw by {
                                    if w == nw {
                                        assert(words[words.len() - 1] == nw);
                                    } else {
                                        assert(attached_before.contains(w));
                                        if in_words(words_before, w) {
                                            let i = choose|i: int|
                                                0 <= i < words_before.len() && #[trigger] words_before[i] == w;
                                            assert(words[i] == w);
                                        } else if kids_attached(attached_before, root, w) {
                                            assert forall|k: u32| child_at(walk(root, w)->0, k) is Some implies #[trigger] attached.contains(
                                                w.push(k),
                                            ) by {
                                                assert(attached_before.contains(w.push(k)));
                                            }
                                        }
                                    }
                                }
                                assert forall|i: int| 0 <= i < j + 1 implies attached.contains(
                                    cw.push((#[trigger] children@[i]).0),
                                ) by {
                                    if i < j {
                                        assert(attached_before.contains(cw.push(children@[i].0)));
                                    }
                                }
                            }
                            assert(along_sizes(queue@).drop_last() =~= along_sizes(queue_before));
                        }
                    },
                    None => {
                        proof {
                            if reads_tree(g, root) {
                                assert(false);
                            }
                        }
                    },
                }
                proof {
                    let sizes = Seq::new(children@.len(), |i: int| children@[i].1.size());
                    assert(sizes.take(j as int + 1).drop_last() =~= sizes.take(j as int));
                }
                j += 1;
            }
            proof {
                let sizes = Seq::new(children@.len(), |i: int| children@[i].1.size());
                assert(sizes.take(children@.len() as int) =~= sizes);
                if reads_tree(g, root) {
                    assert(kids_attached(attached, root, cw)) by {
                        assert forall|k: u32| child_at(walk(root, cw)->0, k) is Some implies #[trigger] attached.contains(
                            cw.push(k),
                        ) by {
                            let c = tn.children();
                            let i0 = choose|i: int| 0 <= i < c.len() && (#[trigger] c[i]).0 == k;
                            assert(attached.contains(cw.push(children@[i0].0)));
                        }
                    }
                }
            }
        }
        let ghost ov = lists_view(sam_to_data@);
        let res = SuffixwiseData::build_from_sam(sam, &sam_to_data, RopeUntaggedInner(None));
        proof {
            assert forall|v: int| 1 <= v < g.len() implies {
                &&& (#[trigger] res@[v]).wf()
                &&& res@[v].spec_min() == lo(g, v) + 1
                &&& res@[v].spec_max() == g[v].len
                &&& res@[v].entries().len() == g[v].len - lo(g, v)
                &&& forall|k: int|
                    0 <= k < res@[v].entries().len() ==> entry_bounded(
                        #[trigger] res@[v].entries()[k],
                        lo(g, v) + 1 + k,
                    )
            } by {
                assert(res@[v].built_for(g, ov, RopeUntaggedInner(None), v));
                lemma_interval(g, v);
                assert forall|k: int| 0 <= k < res@[v].entries().len() implies entry_bounded(
                    #[trigger] res@[v].entries()[k],
                    lo(g, v) + 1 + k,
                ) by {
                    lemma_entry_bounded(g, ov, v, lo(g, v) + 1 + k);
                }
            }
            assert forall|tok: spec_fn(TN) -> D|
                (#[trigger] digests(f, tok)) && reads_tree(g, root) implies data_exact(
                g,
                res@,
                tree_vocab(root, tok),
            ) by {
                lemma_given_from_records(g, root, f, tok, ov);
                lemma_built_is_exact(g, ov, res@, tree_vocab(root, tok));
            }
        }
        res
    }
}

/// Appending a pair to the list of one state keeps what was noted.
pub proof fn lemma_lists_grow<TN: TrieNodeAlike, D, F: Fn(&TN) -> D>(
    g: Seq<NodeView>,
    root: TN,
    f: F,
    before: Seq<Seq<(usize, RopeUntaggedInner<Option<SuffixInTrie<D>>>)>>,
    after: Seq<Seq<(usize, RopeUntaggedInner<Option<SuffixInTrie<D>>>)>>,
    x: int,
    pair: (usize, RopeUntaggedInner<Option<SuffixInTrie<D>>>),
)
    requires
        before.len() == after.len(),
        before.len() == g.len(),
        0 <= x < before.len(),
        after[x] == before[x].push(pair),
        forall|v: int| 0 <= v < before.len() && v != x ==> after[v] == before[v],
    ensures
        forall|w: Seq<u32>| noted(g, root, before, w) ==> #[trigger] noted(g, root, after, w),
        forall|w: Seq<u32>| has_given(g, before, w) ==> #[trigger] has_given(g, after, w),
{
    assert forall|w: Seq<u32>| has_given(g, before, w) implies #[trigger] has_given(g, after, w) by {
        let v = run(g, 1, w);
        let j = choose|j: int| 0 <= j < before[v].len() && (#[trigger] before[v][j]).0 == w.len();
        if v == x {
            assert(after[v][j] == before[v][j]);
        } else {
            assert(after[v] == before[v]);
        }
        assert(after[v][j].0 == w.len());
    }
}

/// The entry that names the word `token` of the length `len`.
pub open spec fn entry_of<D>(token: D, len: int) -> RopeUntaggedInner<Option<SuffixInTrie<D>>> {
    RopeUntaggedInner(Some(SuffixInTrie { digested_trie_node: token, seq_len: len as usize }))
}

/// The entry of the longest word of the vocabulary that `w` begins with, or
/// the entry that names no word.
pub open spec fn lp_entry<D>(vocab: Map<Seq<u32>, D>, w: Seq<u32>) -> RopeUntaggedInner<Option<SuffixInTrie<D>>> {
    let b = best_upto(vocab, w, 0, w.len() as int);
    if b > 0 {
        entry_of(vocab[w.subrange(0, b)], b)
    } else {
        RopeUntaggedInner(None)
    }
}

/// The pair `pair` is given to the state `v` for the word `x` of the
/// vocabulary.
pub open spec fn given_by<D>(
    g: Seq<NodeView>,
    vocab: Map<Seq<u32>, D>,
    v: int,
    pair: (usize, RopeUntaggedInner<Option<SuffixInTrie<D>>>),
    x: Seq<u32>,
) -> bool {
    &&& vocab.contains_key(x)
    &&& run(g, 1, x) == v
    &&& x.len() == pair.0
    &&& pair.1 == entry_of(vocab[x], x.len() as int)
}

/// The pair `pair` is given to the state `v` for some word of the
/// vocabulary.
pub open spec fn from_vocab<D>(
    g: Seq<NodeView>,
    vocab: Map<Seq<u32>, D>,
    v: int,
    pair: (usize, RopeUntaggedInner<Option<SuffixInTrie<D>>>),
) -> bool {
    exists|x: Seq<u32>| #[trigger] given_by(g, vocab, v, pair, x)
}

/// The word `x` has its pair among those given to the state that it leads
/// to.
pub open spec fn has_given<D>(
    g: Seq<NodeView>,
    ov: Seq<Seq<(usize, RopeUntaggedInner<Option<SuffixInTrie<D>>>)>>,
    x: Seq<u32>,
) -> bool {
    &&& 2 <= run(g, 1, x) < g.len()
    &&& exists|j: int| 0 <= j < ov[run(g, 1, x)].len() && (#[trigger] ov[run(g, 1, x)][j]).0 == x.len()
}

/// What is given to the states is what the vocabulary holds: every pair
/// stands for a word, at the state that the word leads to and for its
/// length, and every word has its pair.
#[verifier::opaque]
pub open spec fn given_is_vocab<D>(
    g: Seq<NodeView>,
    ov: Seq<Seq<(usize, RopeUntaggedInner<Option<SuffixInTrie<D>>>)>>,
    vocab: Map<Seq<u32>, D>,
) -> bool {
    &&& ov.len() == g.len()
    &&& forall|v: int, j: int|
        2 <= v < g.len() && 0 <= j < ov[v].len() ==> from_vocab(g, vocab, v, #[trigger] ov[v][j])
    &&& forall|x: Seq<u32>| #[trigger] vocab.contains_key(x) ==> has_given(g, ov, x)
}

/// Where some pair of a list has the length `l`, the list gives an entry for
/// `l`.
pub proof fn lemma_override_some<Inner>(o: Seq<(usize, Inner)>, l: int, j: int)
    requires
        0 <= j < o.len(),
        o[j].0 == l,
    ensures
        override_at(o, l) is Some,
    decreases o.len(),
{
    if o.last().0 != l {
        lemma_override_some(o.drop_last(), l, j);
    }
}

/// What is given for one state is given for words of the vocabulary.
pub proof fn lemma_given_pair<D>(
    g: Seq<NodeView>,
    ov: Seq<Seq<(usize, RopeUntaggedInner<Option<SuffixInTrie<D>>>)>>,
    vocab: Map<Seq<u32>, D>,
    v: int,
    j: int,
)
    requires
        given_is_vocab(g, ov, vocab),
        2 <= v < g.len(),
        0 <= j < ov[v].len(),
    ensures
        from_vocab(g, vocab, v, ov[v][j]),
{
    reveal(given_is_vocab);
}

/// A word of the vocabulary has its pair.
pub proof fn lemma_given_word<D>(
    g: Seq<NodeView>,
    ov: Seq<Seq<(usize, RopeUntaggedInner<Option<SuffixInTrie<D>>>)>>,
    vocab: Map<Seq<u32>, D>,
    x: Seq<u32>,
)
    requires
        given_is_vocab(g, ov, vocab),
        vocab.contains_key(x),
    ensures
        has_given(g, ov, x),
{
    reveal(given_is_vocab);
}

/// A string for whose state and length a pair is given is the word of that
/// pair, and the longest word that it begins with is itself.
pub proof fn lemma_entry_given<D>(
    g: Seq<NodeView>,
    ov: Seq<Seq<(usize, RopeUntaggedInner<Option<SuffixInTrie<D>>>)>>,
    vocab: Map<Seq<u32>, D>,
    w: Seq<u32>,
    j: int,
)
    requires
        graph_wf(g),
        given_is_vocab(g, ov, vocab),
        w.len() > 0,
        2 <= run(g, 1, w) < g.len(),
        0 <= j < ov[run(g, 1, w)].len(),
        ov[run(g, 1, w)][j].0 == w.len(),
    ensures
        lp_entry(vocab, w) == ov[run(g, 1, w)][j].1,
{
    let v = run(g, 1, w);
    lemma_given_pair(g, ov, vocab, v, j);
    let x = choose|x: Seq<u32>| #[trigger] given_by(g, vocab, v, ov[v][j], x);
    lemma_same_state_suffix(g, w, x);
    assert(x.skip(0) =~= x);
    assert(w == x);
    assert(w.subrange(0, w.len() as int) =~= w);
}

/// A string for whose state and length no pair is given is no word, and the
/// longest word that it begins with is that of the string without its last
/// symbol.
pub proof fn lemma_entry_inherits<D>(
    g: Seq<NodeView>,
    ov: Seq<Seq<(usize, RopeUntaggedInner<Option<SuffixInTrie<D>>>)>>,
    vocab: Map<Seq<u32>, D>,
    w: Seq<u32>,
)
    requires
        graph_wf(g),
        given_is_vocab(g, ov, vocab),
        w.len() > 0,
        run(g, 1, w) != 0,
        override_at(ov[run(g, 1, w)], w.len() as int) is None,
    ensures
        lp_entry(vocab, w) == lp_entry(vocab, w.drop_last()),
{
    let v = run(g, 1, w);
    let l = w.len() as int;
    assert(w.subrange(0, l) =~= w);
    if vocab.contains_key(w) {
        lemma_given_word(g, ov, vocab, w);
        let j = choose|j: int| 0 <= j < ov[v].len() && (#[trigger] ov[v][j]).0 == w.len();
        lemma_override_some(ov[v], l, j);
        assert(false);
    }
    let x = w.drop_last();
    lemma_best_prefix(vocab, w, l - 1);
    let b = best_upto(vocab, w, 0, l - 1);
    lemma_best_bound(vocab, w, 0, l - 1);
    assert(best_upto(vocab, w, 0, l) == b);
    assert(best_upto(vocab, x, 0, x.len() as int) == b);
    if b > 0 {
        assert(w.subrange(0, b) =~= x.subrange(0, b));
    }
}

/// The entry of a string that the automaton reads names the longest word of
/// the vocabulary that the string begins with.
pub proof fn lemma_entry_is_lp<D>(
    g: Seq<NodeView>,
    ov: Seq<Seq<(usize, RopeUntaggedInner<Option<SuffixInTrie<D>>>)>>,
    vocab: Map<Seq<u32>, D>,
    w: Seq<u32>,
)
    requires
        graph_wf(g),
        given_is_vocab(g, ov, vocab),
        run(g, 1, w) != 0,
    ensures
        suffix_entry(g, ov, RopeUntaggedInner(None::<SuffixInTrie<D>>), run(g, 1, w), w.len() as int) == lp_entry(
            vocab,
            w,
        ),
    decreases w.len(),
{
    let v = run(g, 1, w);
    let l = w.len() as int;
    lemma_run_len(g, w);
    if l == 0 {
        assert(v == 1);
    } else {
        lemma_run_interval(g, w);
        assert(v != 1);
        if override_at(ov[v], l) is Some {
            let j = lemma_override_witness(ov[v], l);
            lemma_entry_given(g, ov, vocab, w, j);
        } else {
            let x = w.drop_last();
            let u = run(g, 1, x);
            lemma_run_interval(g, x);
            lemma_carrier(g, u, w.last(), v, l);
            lemma_entry_is_lp(g, ov, vocab, x);
            lemma_entry_inherits(g, ov, vocab, w);
        }
    }
}

/// The data of the states names, for every string that the automaton
/// reads, the longest word of the vocabulary that the string begins with.
#[verifier::opaque]
pub open spec fn data_exact<D: Copy>(
    g: Seq<NodeView>,
    data: Seq<SuffixInTrieData<D>>,
    vocab: Map<Seq<u32>, D>,
) -> bool {
    forall|w: Seq<u32>|
        w.len() > 0 && (#[trigger] run(g, 1, w)) != 0 ==> data[run(g, 1, w)].entries()[w.len() - lo(
            g,
            run(g, 1, w),
        ) - 1] == lp_entry(vocab, w)
}

/// What exact data holds for one string.
pub proof fn lemma_data_exact_at<D: Copy>(
    g: Seq<NodeView>,
    data: Seq<SuffixInTrieData<D>>,
    vocab: Map<Seq<u32>, D>,
    w: Seq<u32>,
)
    requires
        data_exact(g, data, vocab),
        w.len() > 0,
        run(g, 1, w) != 0,
    ensures
        data[run(g, 1, w)].entries()[w.len() - lo(g, run(g, 1, w)) - 1] == lp_entry(vocab, w),
{
    reveal(data_exact);
}

/// Data that was built from what the vocabulary gives is exact.
pub proof fn lemma_built_is_exact<D: Copy>(
    g: Seq<NodeView>,
    ov: Seq<Seq<(usize, RopeUntaggedInner<Option<SuffixInTrie<D>>>)>>,
    data: Seq<SuffixInTrieData<D>>,
    vocab: Map<Seq<u32>, D>,
)
    requires
        graph_wf(g),
        given_is_vocab(g, ov, vocab),
        forall|v: int| 1 <= v < g.len() ==> (#[trigger] data[v]).built_for(g, ov, RopeUntaggedInner(None), v),
    ensures
        data_exact(g, data, vocab),
{
    reveal(data_exact);
    assert forall|w: Seq<u32>| w.len() > 0 && (#[trigger] run(g, 1, w)) != 0 implies data[run(
        g,
        1,
        w,
    )].entries()[w.len() - lo(g, run(g, 1, w)) - 1] == lp_entry(vocab, w) by {
        let v = run(g, 1, w);
        lemma_run_len(g, w);
        lemma_run_interval(g, w);
        lemma_entry_is_lp(g, ov, vocab, w);
        assert(data[v].built_for(g, ov, RopeUntaggedInner(None), v));
    }
}

} // verus!
