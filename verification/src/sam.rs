//! The generalized suffix automaton: its states, the construction from a
//! trie-shaped vocabulary, and the orders in which its states can be walked.
use crate::sam_extend::{
    extended, lemma_extend_wf, lemma_len_after, lemma_primary_after, plan_ok, plan_q, primary_out,
    ExtendPlan,
};
use crate::sam_model::{
    bytes_to_symbols, chars_to_symbols, edge, edge_ok, graph_wf, lemma_run_concat,
    lemma_run_from_nil, lemma_wf_ignores_accept, link_ok, run, shape_ok, step, NodeView,
};
use crate::sam_order::{
    child_marked, count_to, covers, from_prefix, lemma_count_mono, lemma_count_take_step,
    lemma_distinct_bounded, lemma_entries_count_le_one, lemma_marked_all, lemma_marked_unfold,
    lemma_pending_bound, lemma_reaches_up, lemma_relax_done, lemma_relax_enter, lemma_relax_init,
    lemma_relax_leave, lemma_relax_step, lemma_sorted_is_topological, len_sorted, link_reaches,
    marked_below, parents_first, pending, relax_inv, relax_mid, topological,
};
use crate::sam_paths::{
    accept_closed, accepts_suffixes_only, in_words, is_suffix, kids_attached,
    lemma_accepted_is_suffix, lemma_accepts_exactly_suffixes, lemma_all_attached, lemma_marks_after,
    lemma_run_stable, lemma_same_trans_same_run, lemma_substrings_are_read, marks_sound, placed,
    reads_tree, suffix_of_word,
};
use crate::table::{convert_table, entries_agree, ConstructiveTransitionTable, TransitionTable};
use crate::trie::{lemma_trie_walk, TrieState};
use crate::trie_alike::{
    bfs_levels, bfs_travel, child_at, dfs_from, dfs_travel, sum_nat, walk, IterAsChain, TravelEvent,
    TrieNodeAlike,
};
use crate::trie_model::lemma_run_in_range;
use std::collections::VecDeque;
use vstd::prelude::*;

verus! {

/// Index of a state of the automaton.
pub type GeneralSAMNodeID = usize;

/// Index of the absent state.
pub const SAM_NIL_NODE_ID: GeneralSAMNodeID = 0;

/// Index of the initial state.
pub const SAM_ROOT_NODE_ID: GeneralSAMNodeID = 1;

/// One state of the automaton.
pub struct GeneralSAMNode<T: TransitionTable> {
    trans: T,
    accept: bool,
    len: usize,
    link: GeneralSAMNodeID,
}

impl<T: TransitionTable> View for GeneralSAMNode<T> {
    type V = NodeView;

    closed spec fn view(&self) -> NodeView {
        NodeView {
            trans: self.trans.trans_map(),
            accept: self.accept,
            len: self.len as nat,
            link: self.link,
        }
    }
}

impl<T: TransitionTable> GeneralSAMNode<T> {
    /// The transition table of the state keeps its own invariant.
    pub closed spec fn table_wf(&self) -> bool {
        self.trans.wf()
    }

    /// The transitions in the order in which the table walks them.
    pub closed spec fn entries(&self) -> Seq<(u32, usize)> {
        self.trans.entries()
    }

    /// Whether some word of the vocabulary ends with a string of this state.
    pub fn is_accepting(&self) -> (r: bool)
        ensures
            r == self@.accept,
    {
        self.accept
    }

    /// The length of the longest string of this state.
    pub fn max_suffix_len(&self) -> (r: usize)
        ensures
            r == self@.len,
    {
        self.len
    }

    /// The suffix parent of this state.
    pub fn get_suffix_parent_id(&self) -> (r: GeneralSAMNodeID)
        ensures
            r == self@.link,
    {
        self.link
    }

    /// The transition table of this state.
    pub fn get_trans(&self) -> (r: &T)
        ensures
            r.trans_map() == self@.trans,
            r.entries() == self.entries(),
            r.wf() == self.table_wf(),
    {
        &self.trans
    }
}

impl<T: ConstructiveTransitionTable> GeneralSAMNode<T> {
    /// A state without transitions.
    fn new(accept: bool, len: usize, link: GeneralSAMNodeID) -> (r: Self)
        ensures
            r.table_wf(),
            r@ == (NodeView { trans: Map::empty(), accept: accept, len: len as nat, link: link }),
    {
        Self { trans: T::empty(), accept, len, link }
    }
}

/// A generalized suffix automaton.
pub struct GeneralSAM<T: TransitionTable> {
    node_pool: Vec<GeneralSAMNode<T>>,
    topo_order: Vec<GeneralSAMNodeID>,
    topo_and_suf_len_sorted_order: Vec<GeneralSAMNodeID>,
}

impl<T: TransitionTable> GeneralSAM<T> {
    /// The states as the contracts see them.
    pub closed spec fn nodes(&self) -> Seq<NodeView> {
        Seq::new(self.node_pool@.len(), |i: int| self.node_pool@[i]@)
    }

    /// Every transition table keeps its own invariant.
    pub closed spec fn tables_wf(&self) -> bool {
        forall|i: int| 0 <= i < self.node_pool@.len() ==> (#[trigger] self.node_pool@[i]).table_wf()
    }

    /// The transitions of every state in the order in which its table walks
    /// them.
    pub closed spec fn all_entries(&self) -> Seq<Seq<(u32, usize)>> {
        Seq::new(self.node_pool@.len(), |i: int| self.node_pool@[i].entries())
    }

    /// The primary topological order.
    pub closed spec fn topo(&self) -> Seq<usize> {
        self.topo_order@
    }

    /// The order by topology and by the length of the longest string.
    pub closed spec fn topo_sorted(&self) -> Seq<usize> {
        self.topo_and_suf_len_sorted_order@
    }
}

impl<T: ConstructiveTransitionTable> GeneralSAM<T> {
    /// The automaton of the empty vocabulary, with an accepting root.
    fn initial() -> (r: Self)
        ensures
            r.tables_wf(),
            r.nodes() == crate::sam_model::initial_graph(true),
            r.topo() == Seq::<usize>::empty(),
            r.topo_sorted() == Seq::<usize>::empty(),
    {
        let mut node_pool: Vec<GeneralSAMNode<T>> = Vec::new();
        node_pool.push(GeneralSAMNode::new(false, 0, SAM_NIL_NODE_ID));
        node_pool.push(GeneralSAMNode::new(true, 0, SAM_NIL_NODE_ID));
        let r = Self { node_pool, topo_order: Vec::new(), topo_and_suf_len_sorted_order: Vec::new() };
        assert(r.nodes() =~= crate::sam_model::initial_graph(true));
        r
    }

    /// Appends a state and returns its index.
    fn alloc_node(&mut self, node: GeneralSAMNode<T>) -> (id: GeneralSAMNodeID)
        requires
            old(self).tables_wf(),
            node.table_wf(),
        ensures
            final(self).tables_wf(),
            id == old(self).nodes().len(),
            final(self).nodes() == old(self).nodes().push(node@),
            final(self).topo() == old(self).topo(),
            final(self).topo_sorted() == old(self).topo_sorted(),
    {
        let id = self.node_pool.len();
        self.node_pool.push(node);
        assert(self.nodes() =~= old(self).nodes().push(node@));
        id
    }

    /// Extends the automaton by the symbol `key` behind the state
    /// `last_node_id`: adds the state of the longer string, gives every suffix
    /// ancestor that lacks it a transition on `key`, and clones the state that
    /// the walk ran into where that one also stands for longer strings.
    fn insert_node_trans(&mut self, last_node_id: GeneralSAMNodeID, key: u32, accept: bool) -> (res: (
        GeneralSAMNodeID,
        Ghost<ExtendPlan>,
    ))
        requires
            old(self).tables_wf(),
            graph_wf(old(self).nodes()),
            1 <= last_node_id < old(self).nodes().len(),
            key < T::alphabet_size(),
            !old(self).nodes()[last_node_id as int].trans.contains_key(key),
        ensures
            final(self).tables_wf(),
            graph_wf(final(self).nodes()),
            res.0 == old(self).nodes().len(),
            res.1@.last == last_node_id,
            res.1@.key == key,
            res.1@.accept == accept,
            plan_ok(old(self).nodes(), res.1@),
            final(self).nodes() == extended(old(self).nodes(), res.1@),
            final(self).nodes().len() <= usize::MAX,
            final(self).topo() == old(self).topo(),
            final(self).topo_sorted() == old(self).topo_sorted(),
    {
        let ghost g0 = self.nodes();
        let ghost n0 = g0.len() as int;
        let pool_len = self.node_pool.len();
        assert(g0[last_node_id as int].len + 2 <= g0.len());
        assert(g0[last_node_id as int] == self.node_pool@[last_node_id as int]@);
        let new_len = self.node_pool[last_node_id].len + 1;
        let new_node_id = self.alloc_node(GeneralSAMNode::new(accept, new_len, SAM_NIL_NODE_ID));
        let ghost new_view = NodeView {
            trans: Map::empty(),
            accept: accept,
            len: g0[last_node_id as int].len + 1,
            link: 0,
        };

        let ghost mut chain: Seq<int> = Seq::empty();
        let mut p_node_id = last_node_id;
        loop
            invariant
                self.tables_wf(),
                graph_wf(g0),
                n0 == g0.len(),
                self.nodes().len() == n0 + 1,
                new_node_id == n0,
                1 <= last_node_id < n0,
                key < T::alphabet_size(),
                !g0[last_node_id as int].trans.contains_key(key),
                p_node_id < n0,
                self.topo() == old(self).topo(),
                self.topo_sorted() == old(self).topo_sorted(),
                forall|i: int|
                    0 <= i < n0 ==> (#[trigger] self.nodes()[i]) == (NodeView {
                        trans: if chain.contains(i) {
                            g0[i].trans.insert(key, n0 as usize)
                        } else {
                            g0[i].trans
                        },
                        ..g0[i]
                    }),
                self.nodes()[n0] == new_view,
                chain.len() == 0 ==> p_node_id == last_node_id,
                chain.len() > 0 ==> chain[0] == last_node_id && g0[chain.last()].link == p_node_id,
                forall|i: int|
                    0 <= i < chain.len() ==> 1 <= (#[trigger] chain[i]) < n0
                        && !g0[chain[i]].trans.contains_key(key),
                forall|i: int| 0 <= i < chain.len() - 1 ==> g0[#[trigger] chain[i]].link == chain[i + 1],
                forall|i: int, j: int|
                    0 <= i < j < chain.len() ==> g0[#[trigger] chain[j]].len < g0[#[trigger] chain[i]].len,
                forall|i: int|
                    0 <= i < chain.len() ==> p_node_id != 0 ==> g0[p_node_id as int].len < g0[#[trigger] chain[i]].len,
            ensures
                p_node_id == 0 || g0[p_node_id as int].trans.contains_key(key),
                chain.len() >= 1,
            decreases
                    (if p_node_id == 0 {
                        0
                    } else {
                        g0[p_node_id as int].len + 1
                    }),
        {
            if p_node_id == SAM_NIL_NODE_ID {
                break ;
            }
            assert(!chain.contains(p_node_id as int)) by {
                if chain.contains(p_node_id as int) {
                    let i = choose|i: int| 0 <= i < chain.len() && chain[i] == p_node_id as int;
                    assert(g0[p_node_id as int].len < g0[chain[i]].len);
                }
            }
            assert(self.node_pool@[p_node_id as int].table_wf());
            assert(self.nodes()[p_node_id as int].trans == g0[p_node_id as int].trans);
            if self.node_pool[p_node_id].trans.contains_key(&key) {
                break ;
            }
            let ghost before = self.nodes();
            self.node_pool[p_node_id].trans.insert(key, new_node_id);
            let next = self.node_pool[p_node_id].link;
            proof {
                let pi = p_node_id as int;
                let old_chain = chain;
                chain = chain.push(pi);
                assert(self.nodes().len() == n0 + 1);
                assert(self.nodes()[pi].trans == g0[pi].trans.insert(key, n0 as usize));
                assert forall|i: int| 0 <= i < n0 implies (#[trigger] self.nodes()[i]) == (NodeView {
                    trans: if chain.contains(i) {
                        g0[i].trans.insert(key, n0 as usize)
                    } else {
                        g0[i].trans
                    },
                    ..g0[i]
                }) by {
                    if i == pi {
                        assert(chain[chain.len() - 1] == pi);
                        assert(chain.contains(pi));
                    } else {
                        assert(self.nodes()[i] == before[i]);
                        if chain.contains(i) {
                            let j = choose|j: int| 0 <= j < chain.len() && chain[j] == i;
                            assert(old_chain[j] == i);
                            assert(old_chain.contains(i));
                        }
                        if old_chain.contains(i) {
                            let j = choose|j: int| 0 <= j < old_chain.len() && old_chain[j] == i;
                            assert(chain[j] == i);
                        }
                    }
                }
                assert(self.nodes()[n0] == before[n0]);
                if pi != 1 {
                    assert(link_ok(g0, pi));
                }
                assert forall|i: int| 0 <= i < chain.len() && next != 0 implies g0[next as int].len
                    < g0[#[trigger] chain[i]].len by {
                    if i < old_chain.len() {
                        assert(g0[pi].len < g0[old_chain[i]].len);
                    }
                }
                assert forall|i: int, j: int| 0 <= i < j < chain.len() implies g0[#[trigger] chain[j]].len
                    < g0[#[trigger] chain[i]].len by {
                    if j == old_chain.len() {
                        assert(g0[pi].len < g0[old_chain[i]].len);
                    } else {
                        assert(g0[old_chain[j]].len < g0[old_chain[i]].len);
                    }
                }
                assert forall|i: int| 0 <= i < chain.len() - 1 implies g0[#[trigger] chain[i]].link
                    == chain[i + 1] by {
                    if i < old_chain.len() - 1 {
                        assert(g0[old_chain[i]].link == old_chain[i + 1]);
                    }
                }
            }
            p_node_id = next;
        }

        let ghost before_link = self.nodes();
        if p_node_id == SAM_NIL_NODE_ID {
            self.node_pool[new_node_id].link = SAM_ROOT_NODE_ID;
            let ghost plan = ExtendPlan {
                last: last_node_id as int,
                key: key,
                accept: accept,
                chain: chain,
                p: 0,
                cloned: false,
                red: Seq::empty(),
            };
            let pool_len = self.node_pool.len();
            proof {
                assert(plan_ok(g0, plan));
                let h = extended(g0, plan);
                assert(self.nodes().len() == h.len());
                assert forall|i: int| 0 <= i < h.len() implies self.nodes()[i] == h[i] by {
                    if i < n0 {
                        assert(self.nodes()[i] == before_link[i]);
                        assert(!plan.red.contains(i));
                    }
                }
                assert(self.nodes() =~= h);
                lemma_extend_wf(g0, plan);
            }
            return (new_node_id, Ghost(plan));
        }
        assert(self.nodes()[p_node_id as int].trans == g0[p_node_id as int].trans) by {
            if chain.contains(p_node_id as int) {
                let i = choose|i: int| 0 <= i < chain.len() && chain[i] == p_node_id as int;
                assert(g0[p_node_id as int].len < g0[chain[i]].len);
            }
        }
        assert(self.node_pool@[p_node_id as int].table_wf());
        assert(edge_ok(g0, p_node_id as int, key));
        let q_node_id = match self.node_pool[p_node_id].trans.get(&key) {
            Some(q) => q,
            None => SAM_NIL_NODE_ID,
        };
        assert(g0[p_node_id as int].len + 2 <= g0.len());
        assert(self.nodes()[q_node_id as int] == self.node_pool@[q_node_id as int]@);
        assert(self.nodes()[p_node_id as int] == self.node_pool@[p_node_id as int]@);
        if self.node_pool[q_node_id].len == self.node_pool[p_node_id].len + 1 {
            self.node_pool[new_node_id].link = q_node_id;
            let ghost plan = ExtendPlan {
                last: last_node_id as int,
                key: key,
                accept: accept,
                chain: chain,
                p: p_node_id as int,
                cloned: false,
                red: Seq::empty(),
            };
            let pool_len = self.node_pool.len();
            proof {
                assert(plan_q(g0, plan) == q_node_id);
                assert(plan_ok(g0, plan));
                let h = extended(g0, plan);
                assert(self.nodes().len() == h.len());
                assert forall|i: int| 0 <= i < h.len() implies self.nodes()[i] == h[i] by {
                    if i < n0 {
                        assert(self.nodes()[i] == before_link[i]);
                        assert(!plan.red.contains(i));
                    }
                }
                assert(self.nodes() =~= h);
                lemma_extend_wf(g0, plan);
            }
            return (new_node_id, Ghost(plan));
        }
        let ghost g1 = self.nodes();
        let ghost p_start = p_node_id as int;
        let ghost qi = q_node_id as int;
        assert(self.node_pool@[q_node_id as int].table_wf());
        let clone_node = GeneralSAMNode {
            trans: self.node_pool[q_node_id].trans.duplicate(),
            accept: self.node_pool[q_node_id].accept,
            len: self.node_pool[p_node_id].len + 1,
            link: self.node_pool[q_node_id].link,
        };
        let ghost clone_view = NodeView {
            trans: g1[qi].trans,
            accept: g0[qi].accept,
            len: g0[p_start].len + 1,
            link: g0[qi].link,
        };
        assert(clone_node@ == clone_view);
        let clone_node_id = self.alloc_node(clone_node);
        let ghost new_view1 = self.nodes()[n0];

        let ghost mut red: Seq<int> = Seq::empty();
        loop
            invariant
                self.tables_wf(),
                graph_wf(g0),
                n0 == g0.len(),
                self.nodes().len() == n0 + 2,
                new_node_id == n0,
                clone_node_id == n0 + 1,
                key < T::alphabet_size(),
                p_node_id < n0,
                2 <= qi < n0,
                qi == q_node_id,
                1 <= p_start < n0,
                edge(g0, p_start, key, qi),
                g0[p_start].len + 1 < g0[qi].len,
                self.topo() == old(self).topo(),
                self.topo_sorted() == old(self).topo_sorted(),
                forall|i: int|
                    0 <= i < chain.len() ==> 1 <= (#[trigger] chain[i]) < n0
                        && !g0[chain[i]].trans.contains_key(key),
                forall|i: int|
                    0 <= i < n0 ==> (#[trigger] self.nodes()[i]) == (NodeView {
                        trans: if chain.contains(i) {
                            g0[i].trans.insert(key, n0 as usize)
                        } else if red.contains(i) {
                            g0[i].trans.insert(key, (n0 + 1) as usize)
                        } else {
                            g0[i].trans
                        },
                        ..g0[i]
                    }),
                self.nodes()[n0] == new_view1,
                self.nodes()[n0 + 1] == clone_view,
                red.len() == 0 ==> p_node_id == p_start,
                red.len() > 0 ==> red[0] == p_start && g0[red.last()].link == p_node_id,
                forall|i: int| 0 <= i < red.len() ==> 1 <= (#[trigger] red[i]) && edge(g0, red[i], key, qi),
                forall|i: int| 0 <= i < red.len() - 1 ==> g0[#[trigger] red[i]].link == red[i + 1],
                forall|i: int, j: int|
                    0 <= i < j < red.len() ==> g0[#[trigger] red[j]].len < g0[#[trigger] red[i]].len,
                forall|i: int|
                    0 <= i < red.len() ==> p_node_id != 0 ==> g0[p_node_id as int].len < g0[#[trigger] red[i]].len,
            ensures
                red.len() >= 1,
                !edge(g0, p_node_id as int, key, qi),
            decreases
                    (if p_node_id == 0 {
                        0
                    } else {
                        g0[p_node_id as int].len + 1
                    }),
        {
            if p_node_id == SAM_NIL_NODE_ID {
                assert(g0[0].trans =~= Map::<u32, usize>::empty());
                break ;
            }
            let ghost pi = p_node_id as int;
            assert(!red.contains(pi)) by {
                if red.contains(pi) {
                    let i = choose|i: int| 0 <= i < red.len() && red[i] == pi;
                    assert(g0[pi].len < g0[red[i]].len);
                }
            }
            assert(self.node_pool@[pi].table_wf());
            assert(self.nodes()[pi] == self.node_pool@[pi]@);
            let hit = match self.node_pool[p_node_id].trans.get(&key) {
                Some(t) => t == q_node_id,
                None => false,
            };
            assert(hit == edge(g0, pi, key, qi)) by {
                if chain.contains(pi) {
                    let i = choose|i: int| 0 <= i < chain.len() && chain[i] == pi;
                    assert(!g0[chain[i]].trans.contains_key(key));
                }
            }
            if !hit {
                break ;
            }
            assert(!chain.contains(pi)) by {
                if chain.contains(pi) {
                    let i = choose|i: int| 0 <= i < chain.len() && chain[i] == pi;
                    assert(!g0[chain[i]].trans.contains_key(key));
                }
            }
            let ghost before = self.nodes();
            self.node_pool[p_node_id].trans.insert(key, clone_node_id);
            let next = self.node_pool[p_node_id].link;
            proof {
                let old_red = red;
                red = red.push(pi);
                assert(self.nodes().len() == n0 + 2);
                assert(self.nodes()[pi].trans == g0[pi].trans.insert(key, (n0 + 1) as usize));
                assert forall|i: int| 0 <= i < n0 implies (#[trigger] self.nodes()[i]) == (NodeView {
                    trans: if chain.contains(i) {
                        g0[i].trans.insert(key, n0 as usize)
                    } else if red.contains(i) {
                        g0[i].trans.insert(key, (n0 + 1) as usize)
                    } else {
                        g0[i].trans
                    },
                    ..g0[i]
                }) by {
                    if i == pi {
                        assert(red[red.len() - 1] == pi);
                        assert(red.contains(pi));
                    } else {
                        assert(self.nodes()[i] == before[i]);
                        if red.contains(i) {
                            let j = choose|j: int| 0 <= j < red.len() && red[j] == i;
                            assert(old_red[j] == i);
                            assert(old_red.contains(i));
                        }
                        if old_red.contains(i) {
                            let j = choose|j: int| 0 <= j < old_red.len() && old_red[j] == i;
                            assert(red[j] == i);
                        }
                    }
                }
                assert(self.nodes()[n0] == before[n0]);
                assert(self.nodes()[n0 + 1] == before[n0 + 1]);
                if pi != 1 {
                    assert(link_ok(g0, pi));
                }
                assert forall|i: int| 0 <= i < red.len() && next != 0 implies g0[next as int].len
                    < g0[#[trigger] red[i]].len by {
                    if i < old_red.len() {
                        assert(g0[pi].len < g0[old_red[i]].len);
                    }
                }
                assert forall|i: int, j: int| 0 <= i < j < red.len() implies g0[#[trigger] red[j]].len
                    < g0[#[trigger] red[i]].len by {
                    if j == old_red.len() {
                        assert(g0[pi].len < g0[old_red[i]].len);
                    } else {
                        assert(g0[old_red[j]].len < g0[old_red[i]].len);
                    }
                }
                assert forall|i: int| 0 <= i < red.len() - 1 implies g0[#[trigger] red[i]].link
                    == red[i + 1] by {
                    if i < old_red.len() - 1 {
                        assert(g0[old_red[i]].link == old_red[i + 1]);
                    }
                }
            }
            p_node_id = next;
        }

        let ghost before_links = self.nodes();
        self.node_pool[new_node_id].link = clone_node_id;
        let ghost mid_links = self.nodes();
        self.node_pool[q_node_id].link = clone_node_id;
        let pool_len = self.node_pool.len();
        let ghost plan = ExtendPlan {
            last: last_node_id as int,
            key: key,
            accept: accept,
            chain: chain,
            p: p_start,
            cloned: true,
            red: red,
        };
        proof {
            assert(plan_q(g0, plan) == qi);
            assert(plan_ok(g0, plan));
            assert(!red.contains(qi)) by {
                if red.contains(qi) {
                    let i = choose|i: int| 0 <= i < red.len() && red[i] == qi;
                    assert(edge(g0, red[i], key, qi));
                    assert(edge_ok(g0, qi, key));
                }
            }
            let h = extended(g0, plan);
            assert(self.nodes().len() == h.len());
            assert(g1[qi].trans == crate::sam_extend::trans_after(g0, plan, qi));
            assert forall|i: int| 0 <= i < h.len() implies self.nodes()[i] == h[i] by {
                if i < n0 {
                    if i != qi {
                        assert(self.nodes()[i] == mid_links[i]);
                        assert(mid_links[i] == before_links[i]);
                    } else {
                        assert(mid_links[i] == before_links[i]);
                    }
                } else if i == n0 {
                    assert(self.nodes()[i] == mid_links[i]);
                } else {
                    assert(self.nodes()[i] == mid_links[i]);
                    assert(mid_links[i] == before_links[i]);
                }
            }
            assert(self.nodes() =~= h);
            lemma_extend_wf(g0, plan);
        }
        (new_node_id, Ghost(plan))
    }
}

/// The sizes of the subtrees that wait in a queue.
pub open spec fn queue_sizes<TN: TrieNodeAlike>(q: Seq<(usize, TN)>) -> Seq<nat> {
    Seq::new(q.len(), |i: int| q[i].1.size())
}

/// The sum of a sequence with its first number taken off.
pub proof fn lemma_sum_drop_first(s: Seq<nat>)
    requires
        s.len() > 0,
    ensures
        sum_nat(s) == s[0] + sum_nat(s.drop_first()),
    decreases s.len(),
{
    if s.len() == 1 {
        assert(s.drop_last() =~= Seq::<nat>::empty());
        assert(s.drop_first() =~= Seq::<nat>::empty());
        assert(sum_nat(s.drop_last()) == 0);
    } else {
        lemma_sum_drop_first(s.drop_last());
        assert(s.drop_last().drop_first() =~= s.drop_first().drop_last());
        assert(s.drop_first().last() == s.last());
        assert(s.drop_last()[0] == s[0]);
    }
}

impl<T: ConstructiveTransitionTable> GeneralSAM<T> {
    /// Walks the tree below `node` level by level and extends the automaton
    /// by every edge, from the state of the edge's upper node.
    #[verifier::rlimit(60)]
    fn build_with_trie<TN: TrieNodeAlike>(&mut self, node: TN)
        requires
            old(self).tables_wf(),
            old(self).nodes() == crate::sam_model::initial_graph(true),
            node.wf(),
            node.symbols_below(T::alphabet_size()),
        ensures
            final(self).tables_wf(),
            graph_wf(final(self).nodes()),
            final(self).topo() == old(self).topo(),
            final(self).topo_sorted() == old(self).topo_sorted(),
            forall|w: Seq<u32>| #[trigger] walk(node, w) is Some ==> placed(final(self).nodes(), node, w),
            node.children().len() == 0 ==> final(self).nodes() == old(self).nodes(),
            marks_sound(final(self).nodes(), node),
    {
        proof {
            crate::sam_model::lemma_initial_graph_wf(true);
            crate::sam_paths::lemma_marks_initial(node, true);
        }
        let mut queue: VecDeque<(GeneralSAMNodeID, TN)> = VecDeque::new();
        queue.push_back((SAM_ROOT_NODE_ID, node));
        let ghost none = Seq::<u32>::empty();
        let ghost mut words: Seq<Seq<u32>> = seq![none];
        let ghost mut attached: Set<Seq<u32>> = set![none];
        proof {
            assert(words[0] == none);
            assert(in_words(words, none));
        }
        loop
            invariant
                words.len() == queue@.len(),
                attached.contains(Seq::<u32>::empty()),
                marks_sound(self.nodes(), node),
                old(self).nodes().len() == 2,
                self.nodes().len() > 2 || self.nodes() == old(self).nodes(),
                self.nodes().len() > 2 ==> node.children().len() > 0,
                self.nodes().len() == 2 ==> queue@.len() == 0 || (queue@.len() == 1 && queue@[0].1
                    == node),
                forall|i: int|
                    0 <= i < queue@.len() ==> attached.contains(#[trigger] words[i]) && walk(
                        node,
                        words[i],
                    ) == Some(queue@[i].1) && run(self.nodes(), 1, words[i]) == queue@[i].0,
                forall|w: Seq<u32>| #[trigger] attached.contains(w) ==> placed(self.nodes(), node, w),
                forall|w: Seq<u32>| #[trigger]
                    attached.contains(w) ==> in_words(words, w) || kids_attached(attached, node, w),
                self.tables_wf(),
                graph_wf(self.nodes()),
                self.topo() == old(self).topo(),
                self.topo_sorted() == old(self).topo_sorted(),
                forall|i: int|
                    0 <= i < queue@.len() ==> 1 <= (#[trigger] queue@[i]).0 < self.nodes().len()
                        && queue@[i].1.wf() && queue@[i].1.symbols_below(T::alphabet_size()),
                forall|i: int, j: int|
                    0 <= i < j < queue@.len() ==> (#[trigger] queue@[i]).0 < (#[trigger] queue@[j]).0
                        && self.nodes()[queue@[i].0 as int].len <= self.nodes()[queue@[j].0 as int].len,
                queue@.len() > 0 ==> forall|v: int|
                    0 <= v < self.nodes().len() ==> (#[trigger] self.nodes()[v]).len
                        <= self.nodes()[queue@[0].0 as int].len + 1,
                forall|i: int, k: u32|
                    0 <= i < queue@.len() ==> !#[trigger] primary_out(self.nodes(), queue@[i].0 as int, k),
            ensures
                forall|w: Seq<u32>| #[trigger] walk(node, w) is Some ==> placed(self.nodes(), node, w),
            decreases sum_nat(queue_sizes(queue@)),
        {
            let ghost queue0 = queue@;
            let ghost g_head = self.nodes();
            let ghost words0 = words;
            let (last_node_id, tn) = match queue.pop_front() {
                Some(item) => item,
                None => {
                    proof {
                        assert forall|w: Seq<u32>| #[trigger] walk(node, w) is Some implies placed(
                            self.nodes(),
                            node,
                            w,
                        ) by {
                            assert forall|x: Seq<u32>| #[trigger] attached.contains(x) implies walk(
                                node,
                                x,
                            ) is Some && kids_attached(attached, node, x) by {
                                assert(placed(self.nodes(), node, x));
                                if in_words(words, x) {
                                    let i = choose|i: int| 0 <= i < words.len() && #[trigger] words[i] == x;
                                }
                            }
                            lemma_all_attached(attached, node, w);
                        }
                    }
                    break ;
                },
            };
            let ghost cw = words[0];
            proof {
                words = words.drop_first();
            }
            assert(queue0[0] == (last_node_id, tn));
            let children = tn.next_states();
            assert forall|i: int| 0 <= i < children@.len() implies (#[trigger] children@[i]).0
                < T::alphabet_size() && children@[i].1.symbols_below(T::alphabet_size()) by {
                assert(children@[i].1.symbols_below(T::alphabet_size()));
            }
            let ghost cur = last_node_id as int;
            let ghost cur_len = self.nodes()[cur].len;
            let ghost base = sum_nat(queue_sizes(queue@));
            proof {
                assert(queue0[0] == (last_node_id, tn));
                assert(queue@ =~= queue0.drop_first());
                lemma_sum_drop_first(queue_sizes(queue0));
                assert(queue_sizes(queue0).drop_first() =~= queue_sizes(queue@));
                assert forall|i: int| 0 <= i < queue@.len() implies (#[trigger] queue@[i]).0 != cur
                    && self.nodes()[queue@[i].0 as int].len >= cur_len by {
                    assert(queue@[i] == queue0[i + 1]);
                    assert(queue0[0].0 < queue0[i + 1].0);
                }
                assert forall|i: int, k: u32| 0 <= i < queue@.len() implies !#[trigger] primary_out(
                    self.nodes(),
                    queue@[i].0 as int,
                    k,
                ) by {
                    assert(queue@[i] == queue0[i + 1]);
                }
                assert forall|i: int, j: int| 0 <= i < j < queue@.len() implies (#[trigger] queue@[i]).0 < (
                #[trigger] queue@[j]).0 && self.nodes()[queue@[i].0 as int].len
                    <= self.nodes()[queue@[j].0 as int].len by {
                    assert(queue@[i] == queue0[i + 1]);
                    assert(queue@[j] == queue0[j + 1]);
                }
                assert forall|k: u32| !primary_out(self.nodes(), cur, k) by {
                    assert(!primary_out(self.nodes(), queue0[0].0 as int, k));
                }
                assert(Seq::new(children@.len(), |i: int| children@[i].1.size()).take(0)
                    =~= Seq::<nat>::empty());

            }
            proof {
                assert(words0[0] == cw);
                assert forall|i: int| 0 <= i < queue@.len() implies attached.contains(
                    #[trigger] words[i],
                ) && walk(node, words[i]) == Some(queue@[i].1) && run(self.nodes(), 1, words[i])
                    == queue@[i].0 by {
                    assert(words[i] == words0[i + 1]);
                    assert(queue@[i] == queue0[i + 1]);
                }
                assert forall|w: Seq<u32>| #[trigger] attached.contains(w) implies in_words(words, w)
                    || kids_attached(attached, node, w) || w == cw by {
                    if in_words(words0, w) {
                        let i = choose|i: int| 0 <= i < words0.len() && #[trigger] words0[i] == w;
                        if i > 0 {
                            assert(words[i - 1] == w);
                        }
                    }
                }
            }
            let mut j: usize = 0;
            while j < children.len()
                invariant
                    j <= children@.len(),
                    words.len() == queue@.len(),
                    attached.contains(Seq::<u32>::empty()),
                    attached.contains(cw),
                    marks_sound(self.nodes(), node),
                    walk(node, cw) == Some(tn),
                    run(self.nodes(), 1, cw) == cur,
                    children@ == tn.children(),
                    old(self).nodes().len() == 2,
                    self.nodes().len() > 2 || self.nodes() == old(self).nodes(),
                    self.nodes().len() > 2 ==> node.children().len() > 0,
                    self.nodes().len() == 2 ==> tn == node && queue@.len() == 0,
                    forall|i: int|
                        0 <= i < queue@.len() ==> attached.contains(#[trigger] words[i]) && walk(
                            node,
                            words[i],
                        ) == Some(queue@[i].1) && run(self.nodes(), 1, words[i]) == queue@[i].0,
                    forall|w: Seq<u32>| #[trigger] attached.contains(w) ==> placed(self.nodes(), node, w),
                    forall|w: Seq<u32>| #[trigger]
                        attached.contains(w) ==> in_words(words, w) || kids_attached(attached, node, w)
                            || w == cw,
                    forall|i: int| 0 <= i < j ==> attached.contains(cw.push((#[trigger] children@[i]).0)),
                    self.tables_wf(),
                    graph_wf(self.nodes()),
                    self.topo() == old(self).topo(),
                    self.topo_sorted() == old(self).topo_sorted(),
                    1 <= cur < self.nodes().len(),
                    cur == last_node_id,
                    self.nodes()[cur].len == cur_len,
                    forall|i: int| 0 <= i < children@.len() ==> (#[trigger] children@[i]).1.wf(),
                    forall|i: int, k: int|
                        0 <= i < k < children@.len() ==> (#[trigger] children@[i]).0 != (#[trigger] children@[k]).0,
                    forall|i: int|
                        0 <= i < children@.len() ==> (#[trigger] children@[i]).0 < T::alphabet_size()
                            && children@[i].1.symbols_below(T::alphabet_size()),
                    forall|i: int|
                        0 <= i < queue@.len() ==> 1 <= (#[trigger] queue@[i]).0 < self.nodes().len()
                            && queue@[i].1.wf() && queue@[i].1.symbols_below(T::alphabet_size())
                            && queue@[i].0 != cur && self.nodes()[queue@[i].0 as int].len >= cur_len,
                    forall|i: int, k: int|
                        0 <= i < k < queue@.len() ==> (#[trigger] queue@[i]).0 < (#[trigger] queue@[k]).0
                            && self.nodes()[queue@[i].0 as int].len <= self.nodes()[queue@[k].0 as int].len,
                    forall|v: int|
                        0 <= v < self.nodes().len() ==> (#[trigger] self.nodes()[v]).len <= cur_len + 1,
                    forall|i: int, k: u32|
                        0 <= i < queue@.len() ==> !#[trigger] primary_out(self.nodes(), queue@[i].0 as int, k),
                    forall|k: u32| #[trigger]
                        primary_out(self.nodes(), cur, k) ==> exists|i: int|
                            0 <= i < j && (#[trigger] children@[i]).0 == k,
                    sum_nat(queue_sizes(queue@)) == base + sum_nat(
                        Seq::new(children@.len(), |i: int| children@[i].1.size()).take(j as int),
                    ),
                decreases children@.len() - j,
            {
                let (key, child) = children[j];
                let ghost g = self.nodes();
                proof {
                    if g[cur].trans.contains_key(key) {
                        assert(edge_ok(g, cur, key));
                        let v = g[cur].trans[key] as int;
                        assert(g[v].len <= cur_len + 1);
                        assert(primary_out(g, cur, key));
                        let i = choose|i: int| 0 <= i < j && (#[trigger] children@[i]).0 == key;
                        assert(children@[i].0 != children@[j as int].0);
                        assert(false);
                    }
                }
                let accept = child.is_accepting();
                let (new_node_id, Ghost(plan)) = self.insert_node_trans(last_node_id, key, accept);
                let ghost h = self.nodes();
                let ghost queue_before = queue@;
                let ghost words_before = words;
                let ghost attached_before = attached;
                let ghost nw = cw.push(key);
                queue.push_back((new_node_id, child));
                proof {
                    words = words.push(nw);
                    attached = attached.insert(nw);
                    let pool_bound = h.len();
                    assert(h == extended(g, plan));
                    lemma_len_after(g, plan);
                    assert forall|w: Seq<u32>| #[trigger] attached_before.contains(w) implies placed(
                        h,
                        node,
                        w,
                    ) && run(h, 1, w) == run(g, 1, w) by {
                        assert(placed(g, node, w));
                        lemma_run_stable(g, plan, w);
                        crate::sam_paths::lemma_run_len(g, w);
                    }
                    assert(placed(h, node, nw)) by {
                        assert(nw.drop_last() =~= cw);
                        assert(nw.last() == key);
                        assert(children@[j as int].0 == key);
                        let c = tn.children();
                        let i0 = choose|i: int| 0 <= i < c.len() && (#[trigger] c[i]).0 == key;
                        if i0 < j {
                            assert(children@[i0].0 != children@[j as int].0);
                        } else if i0 > j {
                            assert(children@[j as int].0 != children@[i0].0);
                        }
                        assert(child_at(tn, key) == Some(child));
                        assert(run(h, 1, cw) == cur);
                    }
                    assert forall|w: Seq<u32>| #[trigger] attached.contains(w) implies placed(h, node, w) by {
                        if w != nw {
                            assert(attached_before.contains(w));
                        }
                    }
                    assert(nw.drop_last() =~= cw);
                    assert(run(h, 1, nw) == g.len());
                    lemma_marks_after(g, plan, node, nw);
                    assert forall|i: int| 0 <= i < queue@.len() implies attached.contains(
                        #[trigger] words[i],
                    ) && walk(node, words[i]) == Some(queue@[i].1) && run(h, 1, words[i]) == queue@[i].0 by {
                        if i < queue_before.len() {
                            assert(words[i] == words_before[i]);
                            assert(queue@[i] == queue_before[i]);
                            assert(attached_before.contains(words_before[i]));
                        } else {
                            assert(words[i] == nw);
                            assert(nw.drop_last() =~= cw);
                        }
                    }
                    assert forall|w: Seq<u32>| #[trigger] attached.contains(w) implies in_words(words, w)
                        || kids_attached(attached, node, w) || w == cw by {
                        if w == nw {
                            assert(words[words.len() - 1] == nw);
                        } else {
                            assert(attached_before.contains(w));
                            if in_words(words_before, w) {
                                let i = choose|i: int|
                                    0 <= i < words_before.len() && #[trigger] words_before[i] == w;
                                assert(words[i] == w);
                            } else if kids_attached(attached_before, node, w) {
                                assert forall|k: u32| child_at(walk(node, w)->0, k) is Some implies #[trigger] attached.contains(
                                    w.push(k),
                                ) by {
                                    assert(attached_before.contains(w.push(k)));
                                }
                            }
                        }
                    }
                    assert forall|i: int| 0 <= i < j + 1 implies attached.contains(
                        cw.push((#[trigger] children@[i]).0),
                    ) by {
                        if i < j {
                            assert(attached_before.contains(cw.push(children@[i].0)));
                        }
                    }
                    assert forall|i: int, k: u32| 0 <= i < queue@.len() implies !#[trigger] primary_out(
                        h,
                        queue@[i].0 as int,
                        k,
                    ) by {
                        if primary_out(h, queue@[i].0 as int, k) {
                            lemma_primary_after(g, plan, queue@[i].0 as int, k);
                            if i < queue_before.len() {
                                assert(queue@[i] == queue_before[i]);
                                assert(!primary_out(g, queue_before[i].0 as int, k));
                            }
                        }
                    }
                    assert forall|k: u32| #[trigger] primary_out(h, cur, k) implies exists|i: int|
                        0 <= i < j + 1 && (#[trigger] children@[i]).0 == k by {
                        lemma_primary_after(g, plan, cur, k);
                        if primary_out(g, cur, k) {
                            let i = choose|i: int| 0 <= i < j && (#[trigger] children@[i]).0 == k;
                            assert(0 <= i < j + 1 && children@[i].0 == k);
                        } else {
                            assert(k == key);
                            assert(children@[j as int].0 == k);
                        }
                    }
                    assert forall|i: int, k: int| 0 <= i < k < queue@.len() implies (#[trigger] queue@[i]).0 < (
                    #[trigger] queue@[k]).0 && h[queue@[i].0 as int].len <= h[queue@[k].0 as int].len by {
                        assert(queue@[i] == queue_before[i]);
                        if k < queue_before.len() {
                            assert(queue@[k] == queue_before[k]);
                        }
                    }
                    let sizes = Seq::new(children@.len(), |i: int| children@[i].1.size());
                    assert(sizes.take(j as int + 1).drop_last() =~= sizes.take(j as int));
                    assert(queue_sizes(queue@).drop_last() =~= queue_sizes(queue_before));
                }
                j += 1;
            }
            proof {
                let sizes = Seq::new(children@.len(), |i: int| children@[i].1.size());
                assert(sizes.take(children@.len() as int) =~= sizes);
                assert(kids_attached(attached, node, cw)) by {
                    assert forall|k: u32| child_at(walk(node, cw)->0, k) is Some implies #[trigger] attached.contains(
                        cw.push(k),
                    ) by {
                        let c = tn.children();
                        let i0 = choose|i: int| 0 <= i < c.len() && (#[trigger] c[i]).0 == k;
                        assert(attached.contains(cw.push(children@[i0].0)));
                    }
                }
            }
        }
    }
}

impl<T: TransitionTable> GeneralSAM<T> {
    /// Counts for every state the transitions that lead to it.
    fn count_in_degrees(&self) -> (in_degree: Vec<usize>)
        requires
            self.tables_wf(),
            graph_wf(self.nodes()),
        ensures
            in_degree@.len() == self.nodes().len(),
            self.nodes().len() <= usize::MAX,
            forall|u: int|
                0 <= u < self.nodes().len() ==> entries_agree(
                    #[trigger] self.all_entries()[u],
                    self.nodes()[u].trans,
                ),
            forall|v: int|
                0 <= v < self.nodes().len() ==> (#[trigger] in_degree@[v]) == pending(
                    self.all_entries(),
                    Set::<int>::empty(),
                    self.nodes().len() as int,
                    v as usize,
                ),
    {
        let n = self.node_pool.len();
        let ghost g = self.nodes();
        let ghost es = self.all_entries();
        let ghost none = Set::<int>::empty();
        let mut in_degree: Vec<usize> = Vec::new();
        let mut z: usize = 0;
        while z < n
            invariant
                z <= n,
                in_degree@.len() == z,
                forall|v: int| 0 <= v < z ==> (#[trigger] in_degree@[v]) == 0,
            decreases n - z,
        {
            in_degree.push(0);
            z += 1;
        }
        let mut u: usize = 0;
        while u < n
            invariant
                u <= n,
                n == g.len(),
                g == self.nodes(),
                es == self.all_entries(),
                none == Set::<int>::empty(),
                self.tables_wf(),
                graph_wf(g),
                in_degree@.len() == n,
                forall|w: int| 0 <= w < u ==> entries_agree(#[trigger] es[w], g[w].trans),
                forall|v: int|
                    0 <= v < n ==> (#[trigger] in_degree@[v]) == pending(es, none, u as int, v as usize),
            decreases n - u,
        {
            assert(self.node_pool@[u as int].table_wf());
            assert(g[u as int] == self.node_pool@[u as int]@);
            let pairs = self.node_pool[u].trans.iter();
            assert(pairs@ == es[u as int]);
            let mut i: usize = 0;
            assert(pairs@.take(0) =~= Seq::<(u32, usize)>::empty());
            while i < pairs.len()
                invariant
                    i <= pairs@.len(),
                    u < n,
                    n == g.len(),
                    graph_wf(g),
                    es.len() == n,
                    pairs@ == es[u as int],
                    entries_agree(pairs@, g[u as int].trans),
                    in_degree@.len() == n,
                    forall|w: int| 0 <= w < u ==> entries_agree(#[trigger] es[w], g[w].trans),
                    forall|v: int|
                        0 <= v < n ==> (#[trigger] in_degree@[v]) == pending(es, none, u as int, v as usize)
                            + count_to(pairs@.take(i as int), v as usize),
                decreases pairs@.len() - i,
            {
                let v = pairs[i].1;
                proof {
                    let k = pairs@[i as int].0;
                    assert(g[u as int].trans.contains_key(k) && g[u as int].trans[k] == v);
                    assert(edge_ok(g, u as int, k));
                    assert forall|w: int| 0 <= w < u implies count_to(#[trigger] es[w], v) <= 1 by {
                        lemma_entries_count_le_one(g, w, es[w], v);
                    }
                    lemma_pending_bound(es, none, u as int, v);
                    lemma_entries_count_le_one(g, u as int, pairs@, v);
                    lemma_count_mono(pairs@, i as int + 1, v);
                    lemma_count_take_step(pairs@, i as int, v);
                    assert(in_degree@[v as int] == pending(es, none, u as int, v) + count_to(
                        pairs@.take(i as int),
                        v,
                    ));
                }
                let d = in_degree[v];
                in_degree.set(v, d + 1);
                proof {
                    assert forall|w: int| 0 <= w < n implies (#[trigger] in_degree@[w]) == pending(
                        es,
                        none,
                        u as int,
                        w as usize,
                    ) + count_to(pairs@.take(i as int + 1), w as usize) by {
                        lemma_count_take_step(pairs@, i as int, w as usize);
                    }
                }
                i += 1;
            }
            assert(pairs@.take(pairs@.len() as int) =~= pairs@);
            assert forall|v: int| 0 <= v < n implies (#[trigger] in_degree@[v]) == pending(
                es,
                none,
                u as int + 1,
                v as usize,
            ) by {
                assert(!none.contains(u as int));
                assert(in_degree@[v] == pending(es, none, u as int, v as usize) + count_to(
                    pairs@.take(pairs@.len() as int),
                    v as usize,
                ));
            }
            u += 1;
        }
        in_degree
    }

    /// Orders the states by relaxing in-degrees from the root: a state
    /// follows as soon as every state that leads to it has been walked.
    fn topo_sort(&mut self)
        requires
            old(self).tables_wf(),
            graph_wf(old(self).nodes()),
        ensures
            final(self).tables_wf(),
            final(self).nodes() == old(self).nodes(),
            final(self).topo_sorted() == old(self).topo_sorted(),
            covers(final(self).nodes(), final(self).topo()),
            topological(final(self).nodes(), final(self).topo()),
            final(self).topo()[0] == 1,
    {
        let n = self.node_pool.len();
        let ghost g = self.nodes();
        let ghost es = self.all_entries();
        let mut in_degree = self.count_in_degrees();
        let mut order: Vec<GeneralSAMNodeID> = Vec::new();
        order.push(SAM_ROOT_NODE_ID);
        proof {
            lemma_relax_init(g, es, in_degree@);
            assert(order@ =~= seq![1usize]);
        }
        let mut head: usize = 0;
        while head < order.len()
            invariant
                n == g.len(),
                g == self.nodes(),
                es == self.all_entries(),
                self.tables_wf(),
                graph_wf(g),
                relax_inv(g, es, order@, head as int, in_degree@),
            decreases n - head,
        {
            proof {
                lemma_distinct_bounded(order@, n as nat);
                lemma_relax_enter(g, es, order@, head as int, in_degree@);
            }
            let u_id = order[head];
            head += 1;
            assert(self.node_pool@[u_id as int].table_wf());
            let pairs = self.node_pool[u_id].trans.iter();
            assert(pairs@ == es[u_id as int]);
            let mut i: usize = 0;
            while i < pairs.len()
                invariant
                    i <= pairs@.len(),
                    n == g.len(),
                    graph_wf(g),
                    1 <= head <= order@.len(),
                    order@[head - 1] == u_id,
                    pairs@ == es[u_id as int],
                    relax_mid(g, es, order@, head as int, in_degree@, i as int),
                decreases pairs@.len() - i,
            {
                let v_id = pairs[i].1;
                proof {
                    lemma_relax_step(g, es, order@, head as int, in_degree@, i as int);
                }
                let d = in_degree[v_id];
                in_degree.set(v_id, d - 1);
                if d - 1 == 0 {
                    order.push(v_id);
                }
                i += 1;
            }
            proof {
                lemma_relax_leave(g, es, order@, head as int, in_degree@);
            }
        }
        proof {
            lemma_relax_done(g, es, order@, in_degree@);
        }
        self.topo_order = order;
    }
}

impl<T: TransitionTable> GeneralSAM<T> {
    /// Sorts `order` by the length of the longest string; states of one
    /// length keep their order.
    fn sort_by_suffix_len(&self, order: &Vec<GeneralSAMNodeID>) -> (sorted: Vec<GeneralSAMNodeID>)
        requires
            graph_wf(self.nodes()),
            covers(self.nodes(), order@),
        ensures
            covers(self.nodes(), sorted@),
            len_sorted(self.nodes(), sorted@),
            sorted@.len() == order@.len(),
    {
        let ghost g = self.nodes();
        let n = self.node_pool.len();
        let mut sorted: Vec<GeneralSAMNodeID> = Vec::new();
        let mut i: usize = 0;
        while i < order.len()
            invariant
                i <= order@.len(),
                g == self.nodes(),
                n == g.len(),
                covers(g, order@),
                sorted@.len() == i,
                sorted@.no_duplicates(),
                len_sorted(g, sorted@),
                forall|a: int|
                    0 <= a < sorted@.len() ==> from_prefix(order@, i as int, #[trigger] sorted@[a]),
                forall|j: int| 0 <= j < i ==> sorted@.contains(#[trigger] order@[j]),
            decreases order@.len() - i,
        {
            let x = order[i];
            assert(g[x as int] == self.node_pool@[x as int]@);
            let lx = self.node_pool[x].len;
            let mut pos = sorted.len();
            while pos > 0 && self.node_pool[sorted[pos - 1]].len > lx
                invariant
                    pos <= sorted@.len(),
                    g == self.nodes(),
                    n == g.len(),
                    lx == g[x as int].len,
                    forall|a: int|
                        0 <= a < sorted@.len() ==> from_prefix(order@, i as int, #[trigger] sorted@[a]),
                    covers(g, order@),
                    i < order@.len(),
                    forall|a: int| pos <= a < sorted@.len() ==> g[(#[trigger] sorted@[a]) as int].len > lx,
                decreases pos,
            {
                pos -= 1;
                proof {
                    let y = sorted@[pos as int];
                    assert(from_prefix(order@, i as int, y));
                    let j = choose|j: int| 0 <= j < i && j < order@.len() && #[trigger] order@[j] == y;
                    assert(1 <= order@[j] < g.len());
                    assert(g[y as int] == self.node_pool@[y as int]@);
                }
            }
            proof {
                if pos > 0 {
                    let y = sorted@[pos as int - 1];
                    assert(from_prefix(order@, i as int, y));
                    let j = choose|j: int| 0 <= j < i && j < order@.len() && #[trigger] order@[j] == y;
                    assert(1 <= order@[j] < g.len());
                    assert(g[y as int] == self.node_pool@[y as int]@);
                }
            }
            let ghost before = sorted@;
            sorted.insert(pos, x);
            proof {
                let after = sorted@;
                let p = pos as int;
                assert(after == before.insert(p, x));
                assert forall|a: int| 0 <= a < after.len() implies after[a] == (if a < p {
                    before[a]
                } else if a == p {
                    x
                } else {
                    before[a - 1]
                }) by {}
                assert(!before.contains(x)) by {
                    if before.contains(x) {
                        let a = choose|a: int| 0 <= a < before.len() && before[a] == x;
                        assert(from_prefix(order@, i as int, before[a]));
                        let j = choose|j: int| 0 <= j < i && j < order@.len() && #[trigger] order@[j] == before[a];
                        assert(order@[j] == order@[i as int]);
                    }
                }
                assert forall|a: int, b: int| 0 <= a < after.len() && 0 <= b < after.len() && a != b implies after[a]
                    != after[b] by {
                    let a0 = if a < p {
                        a
                    } else {
                        a - 1
                    };
                    let b0 = if b < p {
                        b
                    } else {
                        b - 1
                    };
                    if a == p {
                        assert(before.contains(before[b0]));
                    } else if b == p {
                        assert(before.contains(before[a0]));
                    } else {
                        assert(before[a0] != before[b0]);
                    }
                }
                assert forall|a: int, b: int| 0 <= a < b < after.len() implies g[(#[trigger] after[a]) as int].len
                    <= g[(#[trigger] after[b]) as int].len by {
                    let a0 = if a < p {
                        a
                    } else {
                        a - 1
                    };
                    let b0 = if b < p {
                        b
                    } else {
                        b - 1
                    };
                    if a == p {
                        assert(g[before[b0] as int].len > lx);
                    } else if b == p {
                        if p > 0 {
                            assert(g[before[p - 1] as int].len <= lx);
                            if a0 < p - 1 {
                                assert(g[before[a0] as int].len <= g[before[p - 1] as int].len);
                            }
                        }
                    } else {
                        assert(g[before[a0] as int].len <= g[before[b0] as int].len);
                    }
                }
                assert forall|a: int| 0 <= a < after.len() implies from_prefix(
                    order@,
                    i as int + 1,
                    #[trigger] after[a],
                ) by {
                    if a == p {
                        assert(order@[i as int] == after[a]);
                    } else {
                        let a0 = if a < p {
                            a
                        } else {
                            a - 1
                        };
                        assert(from_prefix(order@, i as int, before[a0]));
                        let j = choose|j: int|
                            0 <= j < i && j < order@.len() && #[trigger] order@[j] == before[a0];
                        assert(0 <= j < i + 1 && order@[j] == after[a]);
                    }
                }
                assert forall|j: int| 0 <= j < i + 1 implies after.contains(#[trigger] order@[j]) by {
                    if j == i {
                        assert(after[p] == x);
                    } else {
                        assert(before.contains(order@[j]));
                        let a = choose|a: int| 0 <= a < before.len() && before[a] == order@[j];
                        let a1 = if a < p {
                            a
                        } else {
                            a + 1
                        };
                        assert(after[a1] == order@[j]);
                    }
                }
            }
            i += 1;
        }
        proof {
            assert forall|v: usize| 1 <= v < g.len() implies #[trigger] sorted@.contains(v) by {
                assert(order@.contains(v));
                let j = choose|j: int| 0 <= j < order@.len() && order@[j] == v;
                assert(sorted@.contains(order@[j]));
            }
            assert forall|a: int| 0 <= a < sorted@.len() implies 1 <= (#[trigger] sorted@[a]) < g.len() by {
                assert(from_prefix(order@, i as int, sorted@[a]));
                let j = choose|j: int| 0 <= j < i && j < order@.len() && #[trigger] order@[j] == sorted@[a];
                assert(1 <= order@[j] < g.len());
            }
        }
        sorted
    }

    /// Hands every accepting mark up the suffix links, from the longest
    /// states to the shortest, and clears the mark of the absent state.
    fn update_accepting(&mut self)
        requires
            old(self).tables_wf(),
            graph_wf(old(self).nodes()),
            covers(old(self).nodes(), old(self).topo_sorted()),
            len_sorted(old(self).nodes(), old(self).topo_sorted()),
        ensures
            final(self).tables_wf(),
            final(self).topo() == old(self).topo(),
            final(self).topo_sorted() == old(self).topo_sorted(),
            final(self).nodes().len() == old(self).nodes().len(),
            forall|v: int|
                0 <= v < old(self).nodes().len() ==> (#[trigger] final(self).nodes()[v]) == (NodeView {
                    accept: v >= 1 && marked_below(old(self).nodes(), v),
                    ..old(self).nodes()[v]
                }),
    {
        let ghost g = self.nodes();
        let ghost s = self.topo_sorted();
        let n = self.node_pool.len();
        let mut i = self.topo_and_suf_len_sorted_order.len();
        while i > 0
            invariant
                i <= s.len(),
                s == self.topo_sorted(),
                self.topo() == old(self).topo(),
                n == g.len(),
                self.nodes().len() == n,
                self.tables_wf(),
                graph_wf(g),
                covers(g, s),
                len_sorted(g, s),
                forall|v: int|
                    0 <= v < n ==> (#[trigger] self.nodes()[v]) == (NodeView {
                        accept: self.nodes()[v].accept,
                        ..g[v]
                    }),
                forall|v: int|
                    1 <= v < n ==> (#[trigger] self.nodes()[v]).accept == (g[v].accept || child_marked(
                        g,
                        s,
                        i as int,
                        v,
                    )),
            decreases i,
        {
            i -= 1;
            let node_id = self.topo_and_suf_len_sorted_order[i];
            let ghost x = node_id as int;
            assert(1 <= s[i as int] < n);
            assert(self.nodes()[x] == self.node_pool@[x]@);
            let link_id = self.node_pool[node_id].link;
            let mark = self.node_pool[node_id].accept;
            let ghost before = self.nodes();
            proof {
                lemma_marked_unfold(g, s, i as int);
                assert(mark == marked_below(g, x));
                if x != 1 {
                    assert(link_ok(g, x));
                }
                assert(before[link_id as int] == self.node_pool@[link_id as int]@);
            }
            let was = self.node_pool[link_id].accept;
            self.node_pool[link_id].accept = was || mark;
            proof {
                let li = link_id as int;
                assert forall|v: int| 0 <= v < n implies (#[trigger] self.nodes()[v]) == (NodeView {
                    accept: self.nodes()[v].accept,
                    ..g[v]
                }) by {
                    if v != li {
                        assert(self.nodes()[v] == before[v]);
                    }
                }
                assert forall|v: int| 1 <= v < n implies (#[trigger] self.nodes()[v]).accept == (g[v].accept
                    || child_marked(g, s, i as int, v)) by {
                    if v != li {
                        assert(self.nodes()[v] == before[v]);
                    }
                    if child_marked(g, s, i as int, v) {
                        let j = choose|j: int|
                            i <= j < s.len() && 0 <= j && (#[trigger] s[j]) >= 2 && g[s[j] as int].link
                                == v && marked_below(g, s[j] as int);
                        if j != i {
                            assert(child_marked(g, s, i as int + 1, v));
                        }
                    }
                    if child_marked(g, s, i as int + 1, v) {
                        let j = choose|j: int|
                            i + 1 <= j < s.len() && 0 <= j && (#[trigger] s[j]) >= 2 && g[s[j] as int].link
                                == v && marked_below(g, s[j] as int);
                        assert(child_marked(g, s, i as int, v));
                    }
                    if v == li && mark {
                        assert(s[i as int] >= 2);
                        assert(child_marked(g, s, i as int, v));
                    }
                }
            }
        }
        let ghost before = self.nodes();
        self.node_pool[SAM_NIL_NODE_ID].accept = false;
        proof {
            assert forall|v: int| 0 <= v < n implies (#[trigger] self.nodes()[v]) == (NodeView {
                accept: v >= 1 && marked_below(g, v),
                ..g[v]
            }) by {
                if v >= 1 {
                    assert(self.nodes()[v] == before[v]);
                    lemma_marked_all(g, s, v);
                }
            }
        }
    }

    /// The automaton is complete and sound: its states satisfy the structural
    /// invariant, both orders hold every state once, the primary one is
    /// topological, the secondary one is sorted by length, the absent state
    /// does not accept, and the suffix parent of an accepting state is
    /// accepting.
    pub open spec fn wf(&self) -> bool {
        &&& self.tables_wf()
        &&& graph_wf(self.nodes())
        &&& covers(self.nodes(), self.topo())
        &&& topological(self.nodes(), self.topo())
        &&& self.topo()[0] == 1
        &&& covers(self.nodes(), self.topo_sorted())
        &&& len_sorted(self.nodes(), self.topo_sorted())
        &&& !self.nodes()[0].accept
        &&& accept_closed(self.nodes())
    }
}

impl<T: ConstructiveTransitionTable> GeneralSAM<T> {
    /// Builds the automaton of the vocabulary whose words are the paths of
    /// the tree below `node` that end at accepting nodes. The automaton
    /// reads every part of every word, and accepts exactly the suffixes of
    /// the words: the root, which stands for the empty string, accepts
    /// as soon as there is a word.
    pub fn construct_from_trie<TN: TrieNodeAlike>(node: TN) -> (sam: Self)
        requires
            node.wf(),
            node.symbols_below(T::alphabet_size()),
        ensures
            sam.wf(),
            reads_tree(sam.nodes(), node),
            accepts_suffixes_only(sam.nodes(), node),
            node.children().len() == 0 ==> sam.nodes().len() == 2,
            node.children().len() == 0 ==> sam.nodes()[1].accept == node.accepting(),
    {
        let mut sam = Self::initial();
        let accept_empty_string = node.is_accepting();
        sam.build_with_trie(node);
        sam.topo_sort();
        let sorted = sam.sort_by_suffix_len(&sam.topo_order);
        sam.topo_and_suf_len_sorted_order = sorted;
        let ghost g0 = sam.nodes();
        assert(g0[1] == sam.node_pool@[1]@);
        sam.node_pool[SAM_ROOT_NODE_ID].accept = accept_empty_string;
        let ghost g = sam.nodes();
        proof {
            assert(g[1] == sam.node_pool@[1]@);
            assert forall|v: int| 0 <= v < g0.len() implies (#[trigger] g[v]) == (NodeView {
                accept: g[v].accept,
                ..g0[v]
            }) by {
                if v != 1 {
                    assert(g[v] == g0[v]);
                }
            }
            lemma_wf_ignores_accept(g0, g);
            assert(covers(g, sam.topo_sorted()));
            assert(len_sorted(g, sam.topo_sorted())) by {
                assert forall|i: int, j: int| 0 <= i < j < sam.topo_sorted().len() implies g[(
                #[trigger] sam.topo_sorted()[i]) as int].len <= g[(#[trigger] sam.topo_sorted()[j]) as int].len by {
                    assert(g0[sam.topo_sorted()[i] as int].len <= g0[sam.topo_sorted()[j] as int].len);
                }
            }
            assert(marks_sound(g, node)) by {
                reveal(marks_sound);
                assert forall|w: Seq<u32>|
                    (#[trigger] run(g, 1, w)) >= 2 && run(g, 1, w) < g.len() && g[run(g, 1, w)].accept implies suffix_of_word(
                    node,
                    w,
                ) by {
                    lemma_same_trans_same_run(g0, g, 1, w);
                    assert(g[run(g0, 1, w)] == g0[run(g0, 1, w)]);
                }
            }
        }
        sam.update_accepting();
        proof {
            let f = sam.nodes();
            assert forall|v: int| 0 <= v < g.len() implies (#[trigger] f[v]) == (NodeView {
                accept: f[v].accept,
                ..g[v]
            }) by {}
            lemma_wf_ignores_accept(g, f);
            assert(!f[0].accept);
            assert(covers(f, sam.topo()));
            assert(covers(f, sam.topo_sorted()));
            assert(len_sorted(f, sam.topo_sorted())) by {
                assert forall|i: int, j: int| 0 <= i < j < sam.topo_sorted().len() implies f[(
                #[trigger] sam.topo_sorted()[i]) as int].len <= f[(#[trigger] sam.topo_sorted()[j]) as int].len by {
                    assert(g[sam.topo_sorted()[i] as int].len <= g[sam.topo_sorted()[j] as int].len);
                }
            }
            assert forall|i: int, j: int, k: u32|
                0 <= i < sam.topo().len() && 0 <= j < sam.topo().len() && #[trigger] edge(
                    f,
                    sam.topo()[i] as int,
                    k,
                    sam.topo()[j] as int,
                ) implies i < j by {
                assert(edge(g0, sam.topo()[i] as int, k, sam.topo()[j] as int));
            }
            assert(reads_tree(f, node)) by {
                reveal(reads_tree);
                assert forall|w: Seq<u32>| #[trigger] walk(node, w) is Some implies {
                    &&& run(f, 1, w) != 0
                    &&& f[run(f, 1, w)].len == w.len()
                    &&& walk(node, w)->0.accepting() ==> f[run(f, 1, w)].accept
                } by {
                    assert(placed(g0, node, w));
                    lemma_same_trans_same_run(g0, g, 1, w);
                    lemma_same_trans_same_run(g, f, 1, w);
                    let v = run(g0, 1, w);
                    crate::sam_paths::lemma_run_len(g0, w);
                    if w.len() > 0 {
                        assert(v != 1);
                        assert(g[v] == g0[v]);
                    } else {
                        assert(walk(node, w) == Some(node));
                    }
                    if g[v].accept {
                        assert(link_reaches(g, v, v));
                    }
                }
            }
            assert(accepts_suffixes_only(f, node)) by {
                reveal(accepts_suffixes_only);
                assert forall|w: Seq<u32>|
                    (#[trigger] run(f, 1, w)) != 0 && f[run(f, 1, w)].accept implies suffix_of_word(
                    node,
                    w,
                ) by {
                    lemma_same_trans_same_run(g, f, 1, w);
                    crate::sam_paths::lemma_run_len(g, w);
                    lemma_accepted_is_suffix(g, node, w);
                }
            }
            assert forall|v: int| 2 <= v < f.len() && (#[trigger] f[v]).accept implies f[f[v].link as int].accept by {
                assert(link_ok(g, v));
                let d = choose|d: int| 1 <= d < g.len() && #[trigger] link_reaches(g, d, v) && g[d].accept;
                lemma_reaches_up(g, d, v);
            }
            if node.children().len() == 0 {
                assert(g0.len() == 2);
                if f[1].accept {
                    let d = choose|d: int| 1 <= d < g.len() && #[trigger] link_reaches(g, d, 1) && g[d].accept;
                    assert(d == 1);
                } else if node.accepting() {
                    assert(link_reaches(g, 1, 1));
                }
            }
        }
        sam
    }
}

impl<T: TransitionTable> GeneralSAM<T> {
    /// The same automaton on the backend `N`.
    pub fn alter_trans_table<N: TransitionTable>(&self) -> (r: GeneralSAM<N>)
        requires
            self.tables_wf(),
            forall|u: int, k: u32|
                0 <= u < self.nodes().len() && #[trigger] self.nodes()[u].trans.contains_key(k) ==> k
                    < N::alphabet_size(),
        ensures
            r.tables_wf(),
            r.nodes() == self.nodes(),
            r.topo() == self.topo(),
            r.topo_sorted() == self.topo_sorted(),
            self.wf() ==> r.wf(),
    {
        let mut node_pool: Vec<GeneralSAMNode<N>> = Vec::new();
        let mut i: usize = 0;
        while i < self.node_pool.len()
            invariant
                i <= self.node_pool@.len(),
                node_pool@.len() == i,
                self.tables_wf(),
                forall|u: int, k: u32|
                    0 <= u < self.nodes().len() && #[trigger] self.nodes()[u].trans.contains_key(k)
                        ==> k < N::alphabet_size(),
                forall|j: int|
                    0 <= j < i ==> (#[trigger] node_pool@[j]).table_wf() && node_pool@[j]@
                        == self.nodes()[j],
            decreases self.node_pool@.len() - i,
        {
            let node = &self.node_pool[i];
            assert(self.node_pool@[i as int].table_wf());
            assert(self.nodes()[i as int] == self.node_pool@[i as int]@);
            assert forall|k: u32| node.trans.trans_map().contains_key(k) implies k
                < N::alphabet_size() by {
                assert(self.nodes()[i as int].trans.contains_key(k));
            }
            let trans: N = convert_table(&node.trans);
            node_pool.push(GeneralSAMNode { trans, accept: node.accept, len: node.len, link: node.link });
            i += 1;
        }
        let r = GeneralSAM {
            node_pool,
            topo_order: copy_ids(&self.topo_order),
            topo_and_suf_len_sorted_order: copy_ids(&self.topo_and_suf_len_sorted_order),
        };
        proof {
            assert(r.nodes() =~= self.nodes());
        }
        r
    }

    /// The same automaton on the backend `N`, in place of this one.
    pub fn alter_trans_table_into<N: TransitionTable>(self) -> (r: GeneralSAM<N>)
        requires
            self.tables_wf(),
            forall|u: int, k: u32|
                0 <= u < self.nodes().len() && #[trigger] self.nodes()[u].trans.contains_key(k) ==> k
                    < N::alphabet_size(),
        ensures
            r.tables_wf(),
            r.nodes() == self.nodes(),
            r.topo() == self.topo(),
            r.topo_sorted() == self.topo_sorted(),
            self.wf() ==> r.wf(),
    {
        self.alter_trans_table()
    }

    /// The number of states, the absent one included.
    pub fn num_of_nodes(&self) -> (r: usize)
        ensures
            r == self.nodes().len(),
    {
        self.node_pool.len()
    }

    /// The root.
    pub fn get_root_node(&self) -> (r: &GeneralSAMNode<T>)
        requires
            self.nodes().len() >= 2,
        ensures
            r@ == self.nodes()[1],
            self.tables_wf() ==> r.table_wf(),
            r.entries() == self.all_entries()[1],
    {
        &self.node_pool[SAM_ROOT_NODE_ID]
    }

    /// The state with the index `node_id`, if there is one.
    pub fn get_node(&self, node_id: GeneralSAMNodeID) -> (r: Option<&GeneralSAMNode<T>>)
        ensures
            r is Some <==> node_id < self.nodes().len(),
            r matches Some(node) ==> node@ == self.nodes()[node_id as int] && node.entries()
                == self.all_entries()[node_id as int] && (self.tables_wf() ==> node.table_wf()),
    {
        if node_id < self.node_pool.len() {
            Some(&self.node_pool[node_id])
        } else {
            None
        }
    }

    /// A cursor at the root.
    pub fn get_root_state(&self) -> (r: GeneralSamState<'_, T>)
        ensures
            r.sam == self,
            r.node_id == (if self.nodes().len() > 1 {
                1usize
            } else {
                0usize
            }),
    {
        self.get_state(SAM_ROOT_NODE_ID)
    }

    /// A cursor at the state `node_id`, or at the absent state where there is
    /// no such state.
    pub fn get_state(&self, node_id: GeneralSAMNodeID) -> (r: GeneralSamState<'_, T>)
        ensures
            r.sam == self,
            r.node_id == (if node_id < self.nodes().len() {
                node_id
            } else {
                0usize
            }),
    {
        if node_id < self.node_pool.len() {
            GeneralSamState { sam: self, node_id }
        } else {
            GeneralSamState { sam: self, node_id: SAM_NIL_NODE_ID }
        }
    }

    /// The states in the primary topological order.
    pub fn get_topo_sorted_node_ids(&self) -> (r: &Vec<GeneralSAMNodeID>)
        ensures
            r@ == self.topo(),
    {
        &self.topo_order
    }

    /// The states in the order by topology and length of the longest string.
    pub fn get_topo_and_suf_len_sorted_node_ids(&self) -> (r: &Vec<GeneralSAMNodeID>)
        ensures
            r@ == self.topo_sorted(),
    {
        &self.topo_and_suf_len_sorted_order
    }

    /// In the primary order the root comes first, every state but the absent
    /// one occurs once, and every transition leads forward.
    pub proof fn lemma_topological_order(&self)
        requires
            self.wf(),
        ensures
            self.topo().len() > 0 && self.topo()[0] == 1,
            covers(self.nodes(), self.topo()),
            topological(self.nodes(), self.topo()),
    {
        assert(self.topo().contains(1usize));
    }

    /// In the secondary order the root comes first, every state but the
    /// absent one occurs once, the lengths of the longest strings do not
    /// fall, every transition leads forward, and every state but the root
    /// stands behind its suffix parent.
    pub proof fn lemma_secondary_order(&self)
        requires
            self.wf(),
        ensures
            self.topo_sorted().len() > 0 && self.topo_sorted()[0] == 1,
            covers(self.nodes(), self.topo_sorted()),
            len_sorted(self.nodes(), self.topo_sorted()),
            topological(self.nodes(), self.topo_sorted()),
            parents_first(self.nodes(), self.topo_sorted()),
    {
        lemma_sorted_is_topological(self.nodes(), self.topo_sorted());
    }

    /// An automaton that reads the tree of a trie reads every part of every
    /// word of the trie: no substring of a word leads to the absent state.
    pub proof fn lemma_reads_parts_of_words<TT: TransitionTable>(
        &self,
        root: TrieState<'_, TT>,
        v: Seq<u32>,
        i: int,
        j: int,
    )
        requires
            self.wf(),
            root.trie.wf(),
            root.node_id == 1,
            reads_tree(self.nodes(), root),
            root.trie.holds(v),
            0 <= i <= j <= v.len(),
        ensures
            run(self.nodes(), 1, v.subrange(i, j)) != 0,
    {
        lemma_trie_walk(root, v);
        lemma_substrings_are_read(self.nodes(), root, v, i, j);
    }

    /// The automaton of a trie accepts a string exactly when the string is a
    /// suffix of a word of the trie.
    pub proof fn lemma_accepts_suffixes_of_words<TT: TransitionTable>(
        &self,
        root: TrieState<'_, TT>,
        w: Seq<u32>,
    )
        requires
            self.wf(),
            root.trie.wf(),
            root.node_id == 1,
            reads_tree(self.nodes(), root),
            accepts_suffixes_only(self.nodes(), root),
        ensures
            (run(self.nodes(), 1, w) != 0 && self.nodes()[run(self.nodes(), 1, w)].accept) <==> (exists|
                v: Seq<u32>,
            | #[trigger] is_suffix(w, v) && root.trie.holds(v)),
    {
        let g = self.nodes();
        lemma_accepts_exactly_suffixes(g, root, w);
        if suffix_of_word(root, w) {
            let x = choose|x: Seq<u32>| #[trigger]
                is_suffix(w, x) && walk(root, x) is Some && walk(root, x)->0.accepting();
            lemma_trie_walk(root, x);
            assert(is_suffix(w, x) && root.trie.holds(x));
        }
        if exists|v: Seq<u32>| #[trigger] is_suffix(w, v) && root.trie.holds(v) {
            let v = choose|v: Seq<u32>| #[trigger] is_suffix(w, v) && root.trie.holds(v);
            lemma_trie_walk(root, v);
            lemma_run_in_range(root.trie.nodes(), 1, v);
            assert(is_suffix(w, v) && walk(root, v) is Some && walk(root, v)->0.accepting());
        }
    }
}

/// A cursor on an automaton: the automaton and the index of a state.
pub struct GeneralSamState<'s, T: TransitionTable> {
    pub sam: &'s GeneralSAM<T>,
    pub node_id: GeneralSAMNodeID,
}

impl<'s, T: TransitionTable> Clone for GeneralSamState<'s, T> {
    fn clone(&self) -> (r: Self)
        ensures
            r == *self,
    {
        GeneralSamState { sam: self.sam, node_id: self.node_id }
    }
}

impl<'s, T: TransitionTable> Copy for GeneralSamState<'s, T> {

}

impl<'s, T: TransitionTable> GeneralSamState<'s, T> {
    /// A cursor on `sam` at `node_id`.
    pub fn new(sam: &'s GeneralSAM<T>, node_id: GeneralSAMNodeID) -> (r: Self)
        ensures
            r.sam == sam,
            r.node_id == node_id,
    {
        GeneralSamState { sam, node_id }
    }

    /// The same cursor, borrowing the automaton.
    pub fn inner_as_ref(&self) -> (r: GeneralSamState<'s, T>)
        ensures
            r == *self,
    {
        GeneralSamState { sam: self.sam, node_id: self.node_id }
    }

    /// Whether the cursor is at the absent state.
    pub fn is_nil(&self) -> (r: bool)
        ensures
            r == (self.node_id == 0),
    {
        self.node_id == SAM_NIL_NODE_ID
    }

    /// Whether the cursor is at the root.
    pub fn is_root(&self) -> (r: bool)
        ensures
            r == (self.node_id == 1),
    {
        self.node_id == SAM_ROOT_NODE_ID
    }

    /// Whether the cursor is at an accepting state.
    pub fn is_accepting(&self) -> (r: bool)
        ensures
            r == (self.node_id < self.sam.nodes().len() && self.sam.nodes()[self.node_id as int].accept),
    {
        match self.get_node() {
            Some(node) => node.is_accepting(),
            None => false,
        }
    }

    /// The automaton of the cursor.
    pub fn get_sam_ref(&self) -> (r: &'s GeneralSAM<T>)
        ensures
            r == self.sam,
    {
        self.sam
    }

    /// The state of the cursor, if the index names one.
    pub fn get_node(&self) -> (r: Option<&'s GeneralSAMNode<T>>)
        ensures
            r is Some <==> self.node_id < self.sam.nodes().len(),
            r matches Some(node) ==> node@ == self.sam.nodes()[self.node_id as int] && node.entries()
                == self.sam.all_entries()[self.node_id as int] && (self.sam.tables_wf()
                ==> node.table_wf()),
    {
        self.sam.get_node(self.node_id)
    }

    /// Moves to the suffix parent; from no state, to the absent state.
    pub fn goto_suffix_parent(&mut self)
        ensures
            final(self).sam == old(self).sam,
            final(self).node_id == (if old(self).node_id < old(self).sam.nodes().len() {
                old(self).sam.nodes()[old(self).node_id as int].link
            } else {
                0usize
            }),
    {
        match self.get_node() {
            Some(node) => {
                self.node_id = node.get_suffix_parent_id();
            },
            None => {
                self.node_id = SAM_NIL_NODE_ID;
            },
        }
    }

    /// Follows the transition on `t`; where there is none, moves to the
    /// absent state.
    pub fn goto(&mut self, t: &u32)
        requires
            old(self).sam.tables_wf(),
        ensures
            final(self).sam == old(self).sam,
            final(self).node_id == step(old(self).sam.nodes(), old(self).node_id as int, *t),
    {
        let next = match self.get_node() {
            Some(node) => {
                match node.get_trans().get(t) {
                    Some(next_node_id) => next_node_id,
                    None => SAM_NIL_NODE_ID,
                }
            },
            None => SAM_NIL_NODE_ID,
        };
        self.node_id = next;
    }

    /// The cursor behind the transition on `key`, if there is one.
    pub fn get_non_nil_trans(&self, key: &u32) -> (r: Option<Self>)
        requires
            self.sam.tables_wf(),
        ensures
            r is Some <==> self.node_id < self.sam.nodes().len() && self.sam.nodes()[self.node_id as int].trans.contains_key(
                *key,
            ),
            r matches Some(next) ==> next.sam == self.sam && next.node_id == step(
                self.sam.nodes(),
                self.node_id as int,
                *key,
            ),
    {
        match self.get_node() {
            Some(node) => {
                match node.get_trans().get(key) {
                    Some(next_node_id) => Some(GeneralSamState { sam: self.sam, node_id: next_node_id }),
                    None => None,
                }
            },
            None => None,
        }
    }

    /// Follows the symbols of `seq` one after the other; once at the absent
    /// state it stays there.
    pub fn feed(&mut self, seq: &[u32])
        requires
            old(self).sam.tables_wf(),
            shape_ok(old(self).sam.nodes()),
        ensures
            final(self).sam == old(self).sam,
            final(self).node_id == run(old(self).sam.nodes(), old(self).node_id as int, seq@),
    {
        let ghost g = self.sam.nodes();
        let ghost start = self.node_id as int;
        let mut i: usize = 0;
        while i < seq.len()
            invariant
                i <= seq@.len(),
                self.sam == old(self).sam,
                g == self.sam.nodes(),
                start == old(self).node_id,
                self.sam.tables_wf(),
                shape_ok(g),
                self.node_id == run(g, start, seq@.take(i as int)),
            decreases seq@.len() - i,
        {
            if self.is_nil() {
                proof {
                    let rest = seq@.skip(i as int);
                    lemma_run_concat(g, start, seq@.take(i as int), rest);
                    lemma_run_from_nil(g, rest);
                    assert(seq@.take(i as int) + rest =~= seq@);
                }
                return ;
            }
            self.goto(&seq[i]);
            proof {
                assert(seq@.take(i as int + 1).drop_last() =~= seq@.take(i as int));
            }
            i += 1;
        }
        assert(seq@.take(i as int) =~= seq@);
    }

    /// Follows the symbols of `seq`, given by reference.
    pub fn feed_ref(&mut self, seq: &[u32])
        requires
            old(self).sam.tables_wf(),
            shape_ok(old(self).sam.nodes()),
        ensures
            final(self).sam == old(self).sam,
            final(self).node_id == run(old(self).sam.nodes(), old(self).node_id as int, seq@),
    {
        self.feed(seq)
    }

    /// Follows the bytes of `seq`.
    pub fn feed_bytes(&mut self, seq: &[u8])
        requires
            old(self).sam.tables_wf(),
            shape_ok(old(self).sam.nodes()),
        ensures
            final(self).sam == old(self).sam,
            final(self).node_id == run(
                old(self).sam.nodes(),
                old(self).node_id as int,
                bytes_to_symbols(seq@),
            ),
    {
        let ghost g = self.sam.nodes();
        let ghost start = self.node_id as int;
        let ghost w = bytes_to_symbols(seq@);
        let mut i: usize = 0;
        while i < seq.len()
            invariant
                i <= seq@.len(),
                self.sam == old(self).sam,
                g == self.sam.nodes(),
                start == old(self).node_id,
                w == bytes_to_symbols(seq@),
                self.sam.tables_wf(),
                shape_ok(g),
                self.node_id == run(g, start, w.take(i as int)),
            decreases seq@.len() - i,
        {
            if self.is_nil() {
                proof {
                    let rest = w.skip(i as int);
                    lemma_run_concat(g, start, w.take(i as int), rest);
                    lemma_run_from_nil(g, rest);
                    assert(w.take(i as int) + rest =~= w);
                }
                return ;
            }
            let t = seq[i] as u32;
            self.goto(&t);
            proof {
                assert(w.take(i as int + 1).drop_last() =~= w.take(i as int));
            }
            i += 1;
        }
        assert(w.take(i as int) =~= w);
    }

    /// Follows the characters of `seq`.
    pub fn feed_chars(&mut self, seq: &str)
        requires
            old(self).sam.tables_wf(),
            shape_ok(old(self).sam.nodes()),
        ensures
            final(self).sam == old(self).sam,
            final(self).node_id == run(
                old(self).sam.nodes(),
                old(self).node_id as int,
                chars_to_symbols(seq@),
            ),
    {
        let symbols = symbols_of_str(seq);
        self.feed(symbols.as_slice())
    }
}

/// The automaton reads every part of the sequence `s`, and of the parts it
/// accepts those that are suffixes of `s`; the empty part is one of them.
pub open spec fn reads_sequence(g: Seq<NodeView>, s: Seq<u32>) -> bool {
    forall|i: int, j: int|
        0 <= i <= j <= s.len() ==> run(g, 1, #[trigger] s.subrange(i, j)) != 0 && (g[run(
            g,
            1,
            s.subrange(i, j),
        )].accept <==> is_suffix(s.subrange(i, j), s))
}

/// A copy of a sequence of indices.
pub fn copy_ids(ids: &Vec<usize>) -> (r: Vec<usize>)
    ensures
        r@ == ids@,
{
    let mut out: Vec<usize> = Vec::new();
    let mut i: usize = 0;
    while i < ids.len()
        invariant
            i <= ids.len(),
            out@ == ids@.take(i as int),
        decreases ids.len() - i,
    {
        out.push(ids[i]);
        i += 1;
        assert(out@ =~= ids@.take(i as int));
    }
    assert(ids@.take(i as int) =~= ids@);
    out
}

/// The code point of `c`.
pub fn symbol_of_char(c: char) -> (r: u32)
    ensures
        r == c as u32,
        r <= 0x10_FFFF,
{
    c as u32
}

/// The code points of the characters of `s`.
pub fn symbols_of_str(s: &str) -> (r: Vec<u32>)
    ensures
        r@ == chars_to_symbols(s@),
        forall|i: int| 0 <= i < r@.len() ==> (#[trigger] r@[i]) <= 0x10_FFFF,
{
    let mut out: Vec<u32> = Vec::new();
    for c in it: s.chars()
        invariant
            it.seq() == s@,
            out@.len() == it.index(),
            forall|i: int| 0 <= i < out@.len() ==> (#[trigger] out@[i]) == s@[i] as u32,
            forall|i: int| 0 <= i < out@.len() ==> (#[trigger] out@[i]) <= 0x10_FFFF,
    {
        let symbol = symbol_of_char(c);
        out.push(symbol);
    }
    assert(out@ =~= chars_to_symbols(s@));
    out
}

/// The symbols that stand for the bytes of `s`.
pub fn symbols_of_bytes(s: &[u8]) -> (r: Vec<u32>)
    ensures
        r@ == bytes_to_symbols(s@),
{
    let mut out: Vec<u32> = Vec::new();
    let mut i: usize = 0;
    while i < s.len()
        invariant
            i <= s@.len(),
            out@.len() == i,
            forall|j: int| 0 <= j < out@.len() ==> (#[trigger] out@[j]) == s@[j] as u32,
        decreases s@.len() - i,
    {
        out.push(s[i] as u32);
        i += 1;
    }
    assert(out@ =~= bytes_to_symbols(s@));
    out
}

impl<T: ConstructiveTransitionTable> GeneralSAM<T> {
    /// Builds the suffix automaton of the sequence of symbols `s`.
    pub fn construct_from_utf32(s: &[u32]) -> (sam: Self)
        requires
            forall|i: int| 0 <= i < s@.len() ==> (#[trigger] s@[i]) < T::alphabet_size(),
        ensures
            sam.wf(),
            sam.nodes()[1].accept,
            s@.len() == 0 ==> sam.nodes().len() == 2,
            reads_sequence(sam.nodes(), s@),
    {
        let chain = IterAsChain::from(s);
        let sam = Self::construct_from_trie(chain);
        proof {
            let g = sam.nodes();
            assert forall|i: int, j: int| 0 <= i <= j <= s@.len() implies run(
                g,
                1,
                #[trigger] s@.subrange(i, j),
            ) != 0 && (g[run(g, 1, s@.subrange(i, j))].accept <==> is_suffix(
                s@.subrange(i, j),
                s@,
            )) by {
                crate::sam_paths::lemma_reads_parts(g, chain, i, j);
            }
            assert(s@.subrange(0, 0) =~= Seq::<u32>::empty());
            assert(s@.skip(s@.len() as int) =~= Seq::<u32>::empty());
        }
        sam
    }

    /// Builds the suffix automaton of the bytes of `s`.
    pub fn construct_from_bytes(s: &[u8]) -> (sam: Self)
        requires
            T::alphabet_size() >= 256,
        ensures
            sam.wf(),
            sam.nodes()[1].accept,
            s@.len() == 0 ==> sam.nodes().len() == 2,
            reads_sequence(sam.nodes(), bytes_to_symbols(s@)),
    {
        let symbols = symbols_of_bytes(s);
        assert forall|i: int| 0 <= i < symbols@.len() implies (#[trigger] symbols@[i])
            < T::alphabet_size() by {
            assert(symbols@[i] == s@[i] as u32);
        }
        Self::construct_from_utf32(symbols.as_slice())
    }

    /// Builds the suffix automaton of the characters of `s`.
    pub fn construct_from_chars(s: &str) -> (sam: Self)
        requires
            T::alphabet_size() >= 0x11_0000,
        ensures
            sam.wf(),
            sam.nodes()[1].accept,
            s@.len() == 0 ==> sam.nodes().len() == 2,
            reads_sequence(sam.nodes(), chars_to_symbols(s@)),
    {
        let symbols = symbols_of_str(s);
        Self::construct_from_utf32(symbols.as_slice())
    }
}

/// The states that go with the events of a walk by levels, from the event
/// at `i` on: the walk starts at `start`; a node that is left hands its
/// state, the oldest that waits in `queue`, on as `cur`; a node that is come
/// to gets the state behind the transition of `cur` on its symbol.
pub open spec fn bfs_replay<TN>(
    g: Seq<NodeView>,
    events: Seq<TravelEvent<TN>>,
    i: int,
    queue: Seq<int>,
    cur: int,
    start: int,
) -> Seq<int>
    decreases events.len() - i,
{
    if i < 0 || i >= events.len() {
        Seq::empty()
    } else {
        match events[i] {
            TravelEvent::PushRoot(_) => seq![start] + bfs_replay(
                g,
                events,
                i + 1,
                queue.push(start),
                cur,
                start,
            ),
            TravelEvent::Pop(_) => {
                let c = if queue.len() > 0 {
                    queue[0]
                } else {
                    0
                };
                let rest = if queue.len() > 0 {
                    queue.drop_first()
                } else {
                    queue
                };
                seq![c] + bfs_replay(g, events, i + 1, rest, c, start)
            },
            TravelEvent::Push(_, k) => {
                let s = step(g, cur, k);
                seq![s] + bfs_replay(g, events, i + 1, queue.push(s), cur, start)
            },
        }
    }
}

/// The states that go with the events of a walk in depth, from the event at
/// `i` on: the walk starts at `start`; a node that is come to gets the state
/// behind the transition of the state on top of `stack` on its symbol, and
/// a node that is left takes its state off the top.
pub open spec fn dfs_replay<TN>(
    g: Seq<NodeView>,
    events: Seq<TravelEvent<TN>>,
    i: int,
    stack: Seq<int>,
    start: int,
) -> Seq<int>
    decreases events.len() - i,
{
    if i < 0 || i >= events.len() {
        Seq::empty()
    } else {
        let top = if stack.len() > 0 {
            stack.last()
        } else {
            0
        };
        match events[i] {
            TravelEvent::PushRoot(_) => seq![start] + dfs_replay(
                g,
                events,
                i + 1,
                stack.push(start),
                start,
            ),
            TravelEvent::Pop(_) => {
                let rest = if stack.len() > 0 {
                    stack.drop_last()
                } else {
                    stack
                };
                seq![top] + dfs_replay(g, events, i + 1, rest, start)
            },
            TravelEvent::Push(_, k) => {
                let s = step(g, top, k);
                seq![s] + dfs_replay(g, events, i + 1, stack.push(s), start)
            },
        }
    }
}

/// The first parts of a sequence of pairs.
pub open spec fn events_of<TN>(r: Seq<(TravelEvent<TN>, usize)>) -> Seq<TravelEvent<TN>> {
    Seq::new(r.len(), |i: int| r[i].0)
}

/// The second parts of a sequence of pairs.
pub open spec fn states_of<TN>(r: Seq<(TravelEvent<TN>, usize)>) -> Seq<int> {
    Seq::new(r.len(), |i: int| r[i].1 as int)
}

impl<'s, T: TransitionTable> GeneralSamState<'s, T> {
    /// Walks the tree below `trie_node` level by level and the automaton
    /// along with it, from the state of the cursor: every event of the walk
    /// comes with the state that belongs to its node.
    pub fn bfs_along<TN: TrieNodeAlike>(&self, trie_node: TN) -> (r: Vec<(TravelEvent<TN>, GeneralSAMNodeID)>)
        requires
            self.sam.tables_wf(),
            trie_node.wf(),
        ensures
            events_of(r@) == seq![TravelEvent::PushRoot(trie_node)] + bfs_levels(
                seq![trie_node],
                trie_node.size() + 1,
            ),
            states_of(r@) == bfs_replay(
                self.sam.nodes(),
                events_of(r@),
                0,
                Seq::empty(),
                0,
                self.node_id as int,
            ),
    {
        let events = bfs_travel(trie_node);
        let ghost g = self.sam.nodes();
        let ghost ev = events@;
        let ghost start = self.node_id as int;
        let mut out: Vec<(TravelEvent<TN>, GeneralSAMNodeID)> = Vec::new();
        let mut queue: VecDeque<GeneralSAMNodeID> = VecDeque::new();
        let mut cur = GeneralSamState { sam: self.sam, node_id: SAM_NIL_NODE_ID };
        let ghost mut qs: Seq<int> = Seq::empty();
        let mut i: usize = 0;
        proof {
            assert(states_of(out@) =~= Seq::<int>::empty());
        }
        while i < events.len()
            invariant
                i <= ev.len(),
                ev == events@,
                g == self.sam.nodes(),
                start == self.node_id,
                self.sam.tables_wf(),
                cur.sam == self.sam,
                out@.len() == i,
                events_of(out@) == ev.take(i as int),
                qs.len() == queue@.len(),
                forall|a: int| 0 <= a < qs.len() ==> (#[trigger] qs[a]) == queue@[a],
                states_of(out@) + bfs_replay(g, ev, i as int, qs, cur.node_id as int, start) == bfs_replay(
                    g,
                    ev,
                    0,
                    Seq::empty(),
                    0,
                    start,
                ),
            decreases ev.len() - i,
        {
            let ghost before = out@;
            let ghost qs0 = qs;
            let state_id = match &events[i] {
                TravelEvent::PushRoot(_) => {
                    queue.push_back(self.node_id);
                    proof {
                        qs = qs.push(start);
                    }
                    self.node_id
                },
                TravelEvent::Pop(_) => {
                    let c = match queue.pop_front() {
                        Some(c) => c,
                        None => SAM_NIL_NODE_ID,
                    };
                    proof {
                        if qs.len() > 0 {
                            assert(qs[0] == c);
                            qs = qs.drop_first();
                        }
                    }
                    cur.node_id = c;
                    c
                },
                TravelEvent::Push(_, key) => {
                    let mut next = cur;
                    next.goto(key);
                    queue.push_back(next.node_id);
                    proof {
                        qs = qs.push(next.node_id as int);
                    }
                    next.node_id
                },
            };
            let event = match &events[i] {
                TravelEvent::PushRoot(node) => TravelEvent::PushRoot(*node),
                TravelEvent::Pop(node) => TravelEvent::Pop(*node),
                TravelEvent::Push(node, key) => TravelEvent::Push(*node, *key),
            };
            assert(event == ev[i as int]);
            out.push((event, state_id));
            proof {
                assert(events_of(out@) =~= ev.take(i as int + 1));
                assert(states_of(out@) =~= states_of(before).push(state_id as int));
                assert forall|a: int| 0 <= a < qs.len() implies (#[trigger] qs[a]) == queue@[a] by {
                    if a < qs0.len() {
                        assert(qs0[a] == qs0[a]);
                    }
                    if a + 1 < qs0.len() {
                        assert(qs0[a + 1] == qs0[a + 1]);
                    }
                }
                assert(states_of(before).push(state_id as int) + bfs_replay(
                    g,
                    ev,
                    i as int + 1,
                    qs,
                    cur.node_id as int,
                    start,
                ) =~= states_of(before) + (seq![state_id as int] + bfs_replay(
                    g,
                    ev,
                    i as int + 1,
                    qs,
                    cur.node_id as int,
                    start,
                )));
            }
            i += 1;
        }
        proof {
            assert(ev.take(i as int) =~= ev);
            assert(states_of(out@) + Seq::<int>::empty() =~= states_of(out@));
        }
        out
    }

    /// Walks the tree below `trie_node` in depth and the automaton along
    /// with it, from the state of the cursor: every event of the walk comes
    /// with the state that belongs to its node.
    pub fn dfs_along<TN: TrieNodeAlike>(&self, trie_node: TN) -> (r: Vec<(TravelEvent<TN>, GeneralSAMNodeID)>)
        requires
            self.sam.tables_wf(),
            trie_node.wf(),
        ensures
            events_of(r@) == seq![TravelEvent::PushRoot(trie_node)] + dfs_from(
                trie_node,
                0,
                trie_node.size(),
            ),
            states_of(r@) == dfs_replay(
                self.sam.nodes(),
                events_of(r@),
                0,
                Seq::empty(),
                self.node_id as int,
            ),
    {
        let events = dfs_travel(trie_node);
        let ghost g = self.sam.nodes();
        let ghost ev = events@;
        let ghost start = self.node_id as int;
        let mut out: Vec<(TravelEvent<TN>, GeneralSAMNodeID)> = Vec::new();
        let mut stack: Vec<GeneralSAMNodeID> = Vec::new();
        let ghost mut ss: Seq<int> = Seq::empty();
        let mut i: usize = 0;
        proof {
            assert(states_of(out@) =~= Seq::<int>::empty());
        }
        while i < events.len()
            invariant
                i <= ev.len(),
                ev == events@,
                g == self.sam.nodes(),
                start == self.node_id,
                self.sam.tables_wf(),
                out@.len() == i,
                events_of(out@) == ev.take(i as int),
                ss.len() == stack@.len(),
                forall|a: int| 0 <= a < ss.len() ==> (#[trigger] ss[a]) == stack@[a],
                states_of(out@) + dfs_replay(g, ev, i as int, ss, start) == dfs_replay(
                    g,
                    ev,
                    0,
                    Seq::empty(),
                    start,
                ),
            decreases ev.len() - i,
        {
            let ghost before = out@;
            let top_id = if stack.len() > 0 {
                stack[stack.len() - 1]
            } else {
                SAM_NIL_NODE_ID
            };
            proof {
                if ss.len() > 0 {
                    assert(ss[ss.len() - 1] == top_id);
                }
            }
            let state_id = match &events[i] {
                TravelEvent::PushRoot(_) => {
                    stack.push(self.node_id);
                    proof {
                        ss = ss.push(start);
                    }
                    self.node_id
                },
                TravelEvent::Pop(_) => {
                    stack.pop();
                    proof {
                        if ss.len() > 0 {
                            ss = ss.drop_last();
                        }
                    }
                    top_id
                },
                TravelEvent::Push(_, key) => {
                    let mut next = GeneralSamState { sam: self.sam, node_id: top_id };
                    next.goto(key);
                    stack.push(next.node_id);
                    proof {
                        ss = ss.push(next.node_id as int);
                    }
                    next.node_id
                },
            };
            let event = match &events[i] {
                TravelEvent::PushRoot(node) => TravelEvent::PushRoot(*node),
                TravelEvent::Pop(node) => TravelEvent::Pop(*node),
                TravelEvent::Push(node, key) => TravelEvent::Push(*node, *key),
            };
            assert(event == ev[i as int]);
            out.push((event, state_id));
            proof {
                assert(events_of(out@) =~= ev.take(i as int + 1));
                assert(states_of(out@) =~= states_of(before).push(state_id as int));
                assert(states_of(before).push(state_id as int) + dfs_replay(g, ev, i as int + 1, ss, start)
                    =~= states_of(before) + (seq![state_id as int] + dfs_replay(
                    g,
                    ev,
                    i as int + 1,
                    ss,
                    start,
                )));
            }
            i += 1;
        }
        proof {
            assert(ev.take(i as int) =~= ev);
            assert(states_of(out@) + Seq::<int>::empty() =~= states_of(out@));
        }
        out
    }
}

} // verus!
