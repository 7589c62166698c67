//! A trie over symbols, built by inserting words, and the cursor on it that
//! makes it a source for the construction of an automaton.
use crate::sam_model::{bytes_to_symbols, chars_to_symbols};
use crate::table::{convert_table, entries_agree, ConstructiveTransitionTable, TransitionTable};
use crate::trie_alike::{child_at, sum_nat, tree_vocab, walk, TrieNodeAlike};
use crate::trie_model::{
    child_ok, empty_trie, grown, lemma_grown_keeps_runs, lemma_insert_words, lemma_run_in_range,
    parent_ok, trie_accepts, trie_run, trie_step, trie_wf, TrieNodeView,
};
use vstd::prelude::*;

verus! {

/// Index of a node of a trie.
pub type TrieNodeID = usize;

/// Index of the absent node.
pub const TRIE_NIL_NODE_ID: TrieNodeID = 0;

/// Index of the root.
pub const TRIE_ROOT_NODE_ID: TrieNodeID = 1;

/// One node of a trie.
pub struct TrieNode<T: TransitionTable> {
    trans: T,
    parent: TrieNodeID,
    pub accept: bool,
}

impl<T: TransitionTable> View for TrieNode<T> {
    type V = TrieNodeView;

    closed spec fn view(&self) -> TrieNodeView {
        TrieNodeView { trans: self.trans.trans_map(), parent: self.parent, accept: self.accept }
    }
}

impl<T: TransitionTable> TrieNode<T> {
    /// The transition table of the node keeps its own invariant.
    pub closed spec fn table_wf(&self) -> bool {
        self.trans.wf()
    }

    /// The edges in the order in which the table walks them.
    pub closed spec fn entries(&self) -> Seq<(u32, usize)> {
        self.trans.entries()
    }

    /// The transition table of this node.
    pub fn get_trans(&self) -> (r: &T)
        ensures
            r.trans_map() == self@.trans,
            r.entries() == self.entries(),
            r.wf() == self.table_wf(),
    {
        &self.trans
    }

    /// The parent of this node.
    pub fn get_parent(&self) -> (r: TrieNodeID)
        ensures
            r == self@.parent,
    {
        self.parent
    }

    /// Whether a word ends at this node.
    pub fn is_accepting(&self) -> (r: bool)
        ensures
            r == self@.accept,
    {
        self.accept
    }
}

impl<T: ConstructiveTransitionTable> TrieNode<T> {
    /// A node without edges below `parent`.
    fn new(parent: TrieNodeID) -> (r: Self)
        ensures
            r.table_wf(),
            r@ == (TrieNodeView { trans: Map::empty(), parent: parent, accept: false }),
    {
        Self { trans: T::empty(), parent, accept: false }
    }
}

/// A trie.
pub struct Trie<T: TransitionTable> {
    node_pool: Vec<TrieNode<T>>,
}

impl<T: TransitionTable> Trie<T> {
    /// The nodes as the contracts see them.
    pub closed spec fn nodes(&self) -> Seq<TrieNodeView> {
        Seq::new(self.node_pool@.len(), |i: int| self.node_pool@[i]@)
    }

    /// The edges of every node in the order in which its table walks them.
    pub closed spec fn all_entries(&self) -> Seq<Seq<(u32, usize)>> {
        Seq::new(self.node_pool@.len(), |i: int| self.node_pool@[i].entries())
    }

    /// Every transition table keeps its own invariant.
    pub closed spec fn tables_wf(&self) -> bool {
        forall|i: int| 0 <= i < self.node_pool@.len() ==> (#[trigger] self.node_pool@[i]).table_wf()
    }

    /// Every symbol on an edge is one that the tables can hold.
    pub open spec fn keys_ok(&self) -> bool {
        forall|u: int, k: u32|
            0 <= u < self.nodes().len() && #[trigger] self.nodes()[u].trans.contains_key(k) ==> k
                < T::alphabet_size()
    }

    /// The trie is sound.
    pub open spec fn wf(&self) -> bool {
        &&& self.tables_wf()
        &&& self.keys_ok()
        &&& trie_wf(self.nodes())
    }

    /// The trie holds the word `w`.
    pub open spec fn holds(&self, w: Seq<u32>) -> bool {
        trie_accepts(self.nodes(), w)
    }

    /// The number of nodes, the absent one included.
    pub fn num_of_nodes(&self) -> (r: usize)
        ensures
            r == self.nodes().len(),
    {
        self.node_pool.len()
    }

    /// A cursor at the node `node_id`, or at the absent node where there is
    /// no such node.
    pub fn get_state(&self, node_id: TrieNodeID) -> (r: TrieState<'_, T>)
        ensures
            r.trie == self,
            r.node_id == (if node_id < self.nodes().len() {
                node_id
            } else {
                0usize
            }),
    {
        if node_id >= self.node_pool.len() {
            return TrieState { trie: self, node_id: TRIE_NIL_NODE_ID };
        }
        TrieState { trie: self, node_id }
    }

    /// The node with the index `node_id`, if there is one.
    pub fn get_node(&self, node_id: TrieNodeID) -> (r: Option<&TrieNode<T>>)
        ensures
            r is Some <==> node_id < self.nodes().len(),
            r matches Some(node) ==> node@ == self.nodes()[node_id as int] && node.entries()
                == self.all_entries()[node_id as int] && (self.tables_wf() ==> node.table_wf()),
    {
        if node_id < self.node_pool.len() {
            Some(&self.node_pool[node_id])
        } else {
            None
        }
    }

    /// The same trie on the backend `N`.
    pub fn alter_trans_table<N: TransitionTable>(&self) -> (r: Trie<N>)
        requires
            self.wf(),
            forall|u: int, k: u32|
                0 <= u < self.nodes().len() && #[trigger] self.nodes()[u].trans.contains_key(k) ==> k
                    < N::alphabet_size(),
        ensures
            r.wf(),
            r.nodes() == self.nodes(),
    {
        let mut node_pool: Vec<TrieNode<N>> = Vec::new();
        let mut i: usize = 0;
        while i < self.node_pool.len()
            invariant
                i <= self.node_pool@.len(),
                node_pool@.len() == i,
                self.wf(),
                forall|u: int, k: u32|
                    0 <= u < self.nodes().len() && #[trigger] self.nodes()[u].trans.contains_key(k)
                        ==> k < N::alphabet_size(),
                forall|j: int|
                    0 <= j < i ==> (#[trigger] node_pool@[j]).table_wf() && node_pool@[j]@
                        == self.nodes()[j],
            decreases self.node_pool@.len() - i,
        {
            let node = &self.node_pool[i];
            assert(self.node_pool@[i as int].table_wf());
            assert(self.nodes()[i as int] == self.node_pool@[i as int]@);
            assert forall|k: u32| node.trans.trans_map().contains_key(k) implies k
                < N::alphabet_size() by {
                assert(self.nodes()[i as int].trans.contains_key(k));
            }
            let trans: N = convert_table(&node.trans);
            node_pool.push(TrieNode { trans, parent: node.parent, accept: node.accept });
            i += 1;
        }
        let r = Trie { node_pool };
        proof {
            assert(r.nodes() =~= self.nodes());
        }
        r
    }

    /// The root.
    pub fn get_root_node(&self) -> (r: &TrieNode<T>)
        requires
            self.nodes().len() >= 2,
        ensures
            r@ == self.nodes()[1],
    {
        &self.node_pool[TRIE_ROOT_NODE_ID]
    }

    /// A cursor at the root.
    pub fn get_root_state(&self) -> (r: TrieState<'_, T>)
        ensures
            r.trie == self,
            r.node_id == (if self.nodes().len() > 1 {
                1usize
            } else {
                0usize
            }),
    {
        self.get_state(TRIE_ROOT_NODE_ID)
    }
}

impl<T: ConstructiveTransitionTable> Default for Trie<T> {
    fn default() -> (r: Self)
        ensures
            r.wf(),
            r.nodes() == empty_trie(),
    {
        Trie::new()
    }
}

impl<T: ConstructiveTransitionTable> Trie<T> {
    /// The trie without words.
    pub fn new() -> (r: Self)
        ensures
            r.wf(),
            r.nodes() == empty_trie(),
            forall|w: Seq<u32>| !r.holds(w),
    {
        let mut node_pool: Vec<TrieNode<T>> = Vec::new();
        node_pool.push(TrieNode::new(TRIE_NIL_NODE_ID));
        node_pool.push(TrieNode::new(TRIE_NIL_NODE_ID));
        let r = Self { node_pool };
        proof {
            assert(r.nodes() =~= empty_trie());
            assert forall|w: Seq<u32>| !r.holds(w) by {
                crate::trie_model::lemma_empty_trie(w);
            }
            crate::trie_model::lemma_empty_trie(Seq::empty());
        }
        r
    }

    /// Appends a node below `parent` and returns its index.
    fn alloc_node(&mut self, parent: TrieNodeID) -> (node_id: TrieNodeID)
        requires
            old(self).tables_wf(),
        ensures
            final(self).tables_wf(),
            node_id == old(self).nodes().len(),
            final(self).nodes() == old(self).nodes().push(
                TrieNodeView { trans: Map::empty(), parent: parent, accept: false },
            ),
    {
        let node_id = self.node_pool.len();
        self.node_pool.push(TrieNode::new(parent));
        assert(self.nodes() =~= old(self).nodes().push(
            TrieNodeView { trans: Map::empty(), parent: parent, accept: false },
        ));
        node_id
    }

    /// Inserts the word `seq` and returns the node at which it ends. Nodes
    /// are created as needed, every other word stays, and every node keeps
    /// its index.
    pub fn insert(&mut self, seq: &[u32]) -> (r: TrieNodeID)
        requires
            old(self).wf(),
            forall|i: int| 0 <= i < seq@.len() ==> (#[trigger] seq@[i]) < T::alphabet_size(),
        ensures
            final(self).wf(),
            1 <= r < final(self).nodes().len(),
            r == trie_run(final(self).nodes(), 1, seq@),
            trie_run(old(self).nodes(), 1, seq@) != 0 ==> r == trie_run(old(self).nodes(), 1, seq@),
            old(self).nodes().len() <= final(self).nodes().len(),
            forall|w: Seq<u32>| #[trigger] final(self).holds(w) == (old(self).holds(w) || w == seq@),
            forall|w: Seq<u32>|
                trie_run(old(self).nodes(), 1, w) != 0 ==> #[trigger] trie_run(final(self).nodes(), 1, w)
                    == trie_run(old(self).nodes(), 1, w),
    {
        let ghost t0 = self.nodes();
        let mut current: TrieNodeID = TRIE_ROOT_NODE_ID;
        let mut i: usize = 0;
        while i < seq.len()
            invariant
                i <= seq@.len(),
                self.wf(),
                trie_wf(t0),
                grown(t0, self.nodes()),
                1 <= current < self.nodes().len(),
                current == trie_run(self.nodes(), 1, seq@.take(i as int)),
                forall|i: int| 0 <= i < seq@.len() ==> (#[trigger] seq@[i]) < T::alphabet_size(),
            decreases seq@.len() - i,
        {
            let key = seq[i];
            let ghost prev = self.nodes();
            assert(self.node_pool@[current as int].table_wf());
            assert(prev[current as int] == self.node_pool@[current as int]@);
            let found = self.node_pool[current].trans.get(&key);
            let next = match found {
                Some(v) => {
                    proof {
                        assert(prev[current as int].trans.contains_key(key));
                        assert(child_ok(prev, current as int, key));
                    }
                    v
                },
                None => {
                    let new_node_id = self.alloc_node(current);
                    let ghost mid = self.nodes();
                    let pool_len = self.node_pool.len();
                    assert(self.node_pool@.len() == mid.len());
                    assert(mid[current as int] == self.node_pool@[current as int]@);
                    assert(self.node_pool@[current as int].table_wf());
                    self.node_pool[current].trans.insert(key, new_node_id);
                    proof {
                        let cur = current as int;
                        let now = self.nodes();
                        let n = prev.len() as int;
                        assert(now.len() == n + 1);
                        assert(now[cur].trans == prev[cur].trans.insert(key, new_node_id));
                        assert(now[cur].parent == prev[cur].parent && now[cur].accept
                            == prev[cur].accept);
                        assert forall|u: int| 0 <= u < n && u != cur implies now[u] == prev[u] by {
                            assert(now[u] == mid[u]);
                        }
                        assert(now[n] == mid[n]);
                        lemma_step_grows(prev, now, cur, key);
                        lemma_grown_trans(t0, prev, now);
                        assert forall|u: int, k: u32|
                            0 <= u < now.len() && #[trigger] now[u].trans.contains_key(k) implies k
                            < T::alphabet_size() by {
                            if u < n && (u != cur || k != key) {
                                assert(prev[u].trans.contains_key(k));
                            }
                        }
                    }
                    new_node_id
                },
            };
            proof {
                let now = self.nodes();
                lemma_run_in_range(prev, 1, seq@.take(i as int));
                if found is None {
                    lemma_grown_keeps_runs(prev, now, seq@.take(i as int));
                }
                assert(seq@.take(i as int + 1).drop_last() =~= seq@.take(i as int));
                assert(seq@.take(i as int + 1).last() == key);
            }
            current = next;
            i += 1;
        }
        let ghost t2 = self.nodes();
        assert(seq@.take(i as int) =~= seq@);
        assert(t2[current as int] == self.node_pool@[current as int]@);
        self.node_pool[current].accept = true;
        proof {
            let t3 = self.nodes();
            assert forall|u: int| 0 <= u < t2.len() implies (#[trigger] t3[u]) == (TrieNodeView {
                accept: t2[u].accept || u == trie_run(t2, 1, seq@),
                ..t2[u]
            }) by {
                if u != current as int {
                    assert(t3[u] == t2[u]);
                }
            }
            lemma_marking_keeps_wf(t2, t3);
            assert forall|w: Seq<u32>| #[trigger] self.holds(w) == (old(self).holds(w) || w == seq@) by {
                lemma_insert_words(t0, t2, t3, seq@, w);
            }
            assert forall|w: Seq<u32>| trie_run(t0, 1, w) != 0 implies #[trigger] trie_run(t3, 1, w)
                == trie_run(t0, 1, w) by {
                lemma_insert_words(t0, t2, t3, seq@, w);
                lemma_grown_keeps_runs(t0, t2, w);
            }
            lemma_insert_words(t0, t2, t3, seq@, seq@);
            if trie_run(t0, 1, seq@) != 0 {
                lemma_grown_keeps_runs(t0, t2, seq@);
            }
            assert forall|u: int, k: u32|
                0 <= u < t3.len() && #[trigger] t3[u].trans.contains_key(k) implies k
                < T::alphabet_size() by {
                assert(t2[u].trans.contains_key(k));
            }
        }
        current
    }

    /// Inserts the word whose symbols are the bytes of `bytes`.
    pub fn insert_bytes(&mut self, bytes: &[u8]) -> (r: TrieNodeID)
        requires
            old(self).wf(),
            T::alphabet_size() >= 256,
        ensures
            final(self).wf(),
            1 <= r < final(self).nodes().len(),
            r == trie_run(final(self).nodes(), 1, bytes_to_symbols(bytes@)),
            forall|w: Seq<u32>|
                #[trigger] final(self).holds(w) == (old(self).holds(w) || w == bytes_to_symbols(
                    bytes@,
                )),
    {
        let symbols = crate::sam::symbols_of_bytes(bytes);
        assert forall|i: int| 0 <= i < symbols@.len() implies (#[trigger] symbols@[i])
            < T::alphabet_size() by {
            assert(symbols@[i] == bytes@[i] as u32);
        }
        self.insert(symbols.as_slice())
    }

    /// Inserts the word whose symbols are the code points of the characters
    /// of `s`.
    pub fn insert_chars(&mut self, s: &str) -> (r: TrieNodeID)
        requires
            old(self).wf(),
            T::alphabet_size() >= 0x11_0000,
        ensures
            final(self).wf(),
            1 <= r < final(self).nodes().len(),
            r == trie_run(final(self).nodes(), 1, chars_to_symbols(s@)),
            forall|w: Seq<u32>|
                #[trigger] final(self).holds(w) == (old(self).holds(w) || w == chars_to_symbols(s@)),
    {
        let symbols = crate::sam::symbols_of_str(s);
        assert forall|i: int| 0 <= i < symbols@.len() implies (#[trigger] symbols@[i])
            < T::alphabet_size() by {
            assert(symbols@[i] <= 0x10_FFFF);
        }
        self.insert(symbols.as_slice())
    }
}

/// Hanging a new last node below `cur` on a symbol that `cur` lacks keeps
/// the trie sound and lets it grow.
pub proof fn lemma_step_grows(prev: Seq<TrieNodeView>, now: Seq<TrieNodeView>, cur: int, key: u32)
    requires
        trie_wf(prev),
        1 <= cur < prev.len(),
        !prev[cur].trans.contains_key(key),
        prev.len() < usize::MAX,
        now.len() == prev.len() + 1,
        forall|u: int| 0 <= u < prev.len() && u != cur ==> (#[trigger] now[u]) == prev[u],
        now[cur] == (TrieNodeView { trans: prev[cur].trans.insert(key, prev.len() as usize), ..prev[cur] }),
        now[prev.len() as int] == (TrieNodeView { trans: Map::empty(), parent: cur as usize, accept: false }),
    ensures
        trie_wf(now),
        grown(prev, now),
{
    let n = prev.len() as int;
    assert(now[0].trans =~= Map::<u32, usize>::empty()) by {
        assert(now[0] == prev[0]);
    }
    assert(now[1].parent == 0) by {
        if cur != 1 {
            assert(now[1] == prev[1]);
        }
    }
    assert forall|u: int, k: u32|
        0 <= u < now.len() && #[trigger] now[u].trans.contains_key(k) implies child_ok(now, u, k) by {
        if u == n {
            assert(false);
        } else if u == cur && k == key {
        } else {
            assert(prev[u].trans.contains_key(k));
            assert(child_ok(prev, u, k));
            let c = prev[u].trans[k] as int;
            if c != cur {
                assert(now[c] == prev[c]);
            }
        }
    }
    assert forall|u: int, k1: u32, k2: u32|
        0 <= u < now.len() && #[trigger] now[u].trans.contains_key(k1) && #[trigger] now[u].trans.contains_key(
            k2,
        ) && k1 != k2 implies now[u].trans[k1] != now[u].trans[k2] by {
        if u == cur {
            if k1 != key {
                assert(prev[u].trans.contains_key(k1));
                assert(child_ok(prev, u, k1));
            }
            if k2 != key {
                assert(prev[u].trans.contains_key(k2));
                assert(child_ok(prev, u, k2));
            }
        } else if u < n {
            assert(now[u] == prev[u]);
        }
    }
    assert forall|c: int| 2 <= c < now.len() implies #[trigger] parent_ok(now, c) by {
        if c == n {
            assert(now[cur].trans.contains_key(key) && now[cur].trans[key] == c);
        } else {
            assert(parent_ok(prev, c));
            let p = prev[c].parent as int;
            let k = choose|k: u32| #[trigger] prev[p].trans.contains_key(k) && prev[p].trans[k] == c;
            assert(now[p].trans.contains_key(k) && now[p].trans[k] == c);
            if c != cur {
                assert(now[c] == prev[c]);
            }
        }
    }
    assert forall|u: int, k: u32|
        0 <= u < prev.len() && #[trigger] prev[u].trans.contains_key(k) implies now[u].trans.contains_key(
        k,
    ) && now[u].trans[k] == prev[u].trans[k] by {
        if u != cur {
            assert(now[u] == prev[u]);
        }
    }
    assert forall|u: int|
        0 <= u < prev.len() implies (#[trigger] now[u]).accept == prev[u].accept && now[u].parent
        == prev[u].parent by {
        if u != cur {
            assert(now[u] == prev[u]);
        }
    }
    assert forall|u: int, k: u32|
        0 <= u < prev.len() && #[trigger] now[u].trans.contains_key(k) && !prev[u].trans.contains_key(
            k,
        ) implies now[u].trans[k] >= prev.len() by {
        if u != cur {
            assert(now[u] == prev[u]);
        }
    }
}

/// Growing is transitive.
pub proof fn lemma_grown_trans(t0: Seq<TrieNodeView>, t1: Seq<TrieNodeView>, t2: Seq<TrieNodeView>)
    requires
        grown(t0, t1),
        grown(t1, t2),
    ensures
        grown(t0, t2),
{
    assert forall|u: int, k: u32|
        0 <= u < t0.len() && #[trigger] t2[u].trans.contains_key(k) && !t0[u].trans.contains_key(
            k,
        ) implies t2[u].trans[k] >= t0.len() by {
        if t1[u].trans.contains_key(k) {
        }
    }
    assert forall|u: int, k: u32|
        0 <= u < t0.len() && #[trigger] t0[u].trans.contains_key(k) implies t2[u].trans.contains_key(
        k,
    ) && t2[u].trans[k] == t0[u].trans[k] by {
        assert(t1[u].trans.contains_key(k));
    }
    assert forall|u: int| t0.len() <= u < t2.len() implies !(#[trigger] t2[u]).accept by {
        if u < t1.len() {
            assert(!t1[u].accept);
            assert(t2[u].accept == t1[u].accept);
        }
    }
    assert forall|u: int|
        0 <= u < t0.len() implies (#[trigger] t2[u]).accept == t0[u].accept && t2[u].parent
        == t0[u].parent by {
        assert(t1[u].accept == t0[u].accept);
        assert(t2[u].accept == t1[u].accept);
    }
}

/// Marking nodes other than the absent one keeps the trie sound.
pub proof fn lemma_marking_keeps_wf(t2: Seq<TrieNodeView>, t3: Seq<TrieNodeView>)
    requires
        trie_wf(t2),
        t3.len() == t2.len(),
        !t3[0].accept,
        forall|u: int|
            0 <= u < t2.len() ==> (#[trigger] t3[u]).trans == t2[u].trans && t3[u].parent
                == t2[u].parent,
    ensures
        trie_wf(t3),
{
    assert(t3[0].trans =~= Map::<u32, usize>::empty()) by {
        assert(t3[0].trans == t2[0].trans);
    }
    assert forall|u: int, k: u32|
        0 <= u < t3.len() && #[trigger] t3[u].trans.contains_key(k) implies child_ok(t3, u, k) by {
        assert(t2[u].trans.contains_key(k));
        assert(child_ok(t2, u, k));
        let c = t2[u].trans[k] as int;
        assert(t3[c].parent == t2[c].parent);
    }
    assert forall|u: int, k1: u32, k2: u32|
        0 <= u < t3.len() && #[trigger] t3[u].trans.contains_key(k1) && #[trigger] t3[u].trans.contains_key(
            k2,
        ) && k1 != k2 implies t3[u].trans[k1] != t3[u].trans[k2] by {
        assert(t2[u].trans.contains_key(k1));
        assert(t2[u].trans.contains_key(k2));
    }
    assert forall|c: int| 2 <= c < t3.len() implies #[trigger] parent_ok(t3, c) by {
        assert(parent_ok(t2, c));
        let p = t2[c].parent as int;
        let k = choose|k: u32| #[trigger] t2[p].trans.contains_key(k) && t2[p].trans[k] == c;
        assert(t3[c].parent == t2[c].parent);
        assert(t3[p].trans == t2[p].trans);
        assert(t3[p].trans.contains_key(k) && t3[p].trans[k] == c);
    }
}

/// A cursor on a trie: the trie and the index of a node.
pub struct TrieState<'a, T: TransitionTable> {
    pub trie: &'a Trie<T>,
    pub node_id: TrieNodeID,
}

impl<'a, T: TransitionTable> Clone for TrieState<'a, T> {
    fn clone(&self) -> (r: Self)
        ensures
            r == *self,
    {
        TrieState { trie: self.trie, node_id: self.node_id }
    }
}

impl<'a, T: TransitionTable> Copy for TrieState<'a, T> {

}

impl<'a, T: TransitionTable> TrieState<'a, T> {
    /// The same cursor, borrowing the trie.
    pub fn inner_as_ref(&self) -> (r: TrieState<'a, T>)
        ensures
            r == *self,
    {
        TrieState { trie: self.trie, node_id: self.node_id }
    }

    /// Whether the cursor is at the absent node.
    pub fn is_nil(&self) -> (r: bool)
        ensures
            r == (self.node_id == 0),
    {
        self.node_id == TRIE_NIL_NODE_ID
    }

    /// Whether the cursor is at the root.
    pub fn is_root(&self) -> (r: bool)
        ensures
            r == (self.node_id == 1),
    {
        self.node_id == TRIE_ROOT_NODE_ID
    }

    /// The node of the cursor, if the index names one.
    pub fn get_node(&self) -> (r: Option<&'a TrieNode<T>>)
        ensures
            r is Some <==> self.node_id < self.trie.nodes().len(),
            r matches Some(node) ==> node@ == self.trie.nodes()[self.node_id as int] && node.entries()
                == self.trie.all_entries()[self.node_id as int] && (self.trie.tables_wf()
                ==> node.table_wf()),
    {
        self.trie.get_node(self.node_id)
    }

    /// Moves to the parent; from no node, to the absent node.
    pub fn goto_parent(&mut self)
        ensures
            final(self).trie == old(self).trie,
            final(self).node_id == (if old(self).node_id < old(self).trie.nodes().len() {
                old(self).trie.nodes()[old(self).node_id as int].parent
            } else {
                0usize
            }),
    {
        match self.get_node() {
            Some(node) => {
                self.node_id = node.get_parent();
            },
            None => {
                self.node_id = TRIE_NIL_NODE_ID;
            },
        }
    }

    /// Follows the edge on `t`; where there is none, moves to the absent
    /// node.
    pub fn goto(&mut self, t: &u32)
        requires
            old(self).trie.tables_wf(),
        ensures
            final(self).trie == old(self).trie,
            final(self).node_id == trie_step(old(self).trie.nodes(), old(self).node_id as int, *t),
    {
        let next = match self.get_node() {
            Some(node) => {
                match node.get_trans().get(t) {
                    Some(v) => v,
                    None => TRIE_NIL_NODE_ID,
                }
            },
            None => TRIE_NIL_NODE_ID,
        };
        self.node_id = next;
    }

    /// Follows the symbols of `seq` one after the other.
    pub fn feed(&mut self, seq: &[u32])
        requires
            old(self).trie.tables_wf(),
        ensures
            final(self).trie == old(self).trie,
            final(self).node_id == trie_run(old(self).trie.nodes(), old(self).node_id as int, seq@),
    {
        let ghost t = self.trie.nodes();
        let ghost start = self.node_id as int;
        let mut i: usize = 0;
        while i < seq.len()
            invariant
                i <= seq@.len(),
                self.trie == old(self).trie,
                t == self.trie.nodes(),
                start == old(self).node_id,
                self.trie.tables_wf(),
                self.node_id == trie_run(t, start, seq@.take(i as int)),
            decreases seq@.len() - i,
        {
            self.goto(&seq[i]);
            proof {
                assert(seq@.take(i as int + 1).drop_last() =~= seq@.take(i as int));
            }
            i += 1;
        }
        assert(seq@.take(i as int) =~= seq@);
    }

    /// Follows the symbols of `seq`, given by reference.
    pub fn feed_ref(&mut self, seq: &[u32])
        requires
            old(self).trie.tables_wf(),
        ensures
            final(self).trie == old(self).trie,
            final(self).node_id == trie_run(old(self).trie.nodes(), old(self).node_id as int, seq@),
    {
        self.feed(seq)
    }

    /// Follows the symbols of the slice `slice`.
    pub fn feed_slice(&mut self, slice: &[u32])
        requires
            old(self).trie.tables_wf(),
        ensures
            final(self).trie == old(self).trie,
            final(self).node_id == trie_run(old(self).trie.nodes(), old(self).node_id as int, slice@),
    {
        self.feed(slice)
    }
}

/// The number of nodes below the first `i` children of `u`, these included,
/// counted along the listed edges that lead to later nodes.
pub open spec fn tree_sum(es: Seq<Seq<(u32, usize)>>, u: int, i: int) -> nat
    decreases es.len() - u, i,
{
    if i <= 0 || u < 0 || u >= es.len() || i > es[u].len() {
        0
    } else {
        let c = es[u][i - 1].1 as int;
        tree_sum(es, u, i - 1) + if u < c < es.len() {
            1 + tree_sum(es, c, es[c].len() as int)
        } else {
            0nat
        }
    }
}

/// The children that the listed edges of the node `u` of `trie` lead to.
pub open spec fn child_states<'a, T: TransitionTable>(trie: &'a Trie<T>, u: int) -> Seq<
    (u32, TrieState<'a, T>),
> {
    let e = trie.all_entries()[u];
    Seq::new(e.len(), |i: int| (e[i].0, TrieState { trie: trie, node_id: e[i].1 }))
}

impl<'a, T: TransitionTable> TrieNodeAlike for TrieState<'a, T> {
    open spec fn wf(&self) -> bool {
        &&& self.trie.wf()
        &&& self.node_id < self.trie.nodes().len()
    }

    open spec fn accepting(&self) -> bool {
        self.trie.nodes()[self.node_id as int].accept
    }

    open spec fn children(&self) -> Seq<(u32, Self)> {
        child_states(self.trie, self.node_id as int)
    }

    open spec fn size(&self) -> nat {
        1 + tree_sum(
            self.trie.all_entries(),
            self.node_id as int,
            self.trie.all_entries()[self.node_id as int].len() as int,
        )
    }

    open spec fn symbols_below(&self, bound: nat) -> bool {
        T::alphabet_size() <= bound
    }

    fn is_accepting(&self) -> (r: bool) {
        match self.get_node() {
            Some(node) => node.is_accepting(),
            None => false,
        }
    }

    fn next_states(&self) -> (r: Vec<(u32, Self)>) {
        let node = &self.trie.node_pool[self.node_id];
        assert(self.trie.node_pool@[self.node_id as int].table_wf());
        let pairs = node.trans.iter();
        let ghost es = self.trie.all_entries();
        let ghost t = self.trie.nodes();
        let ghost u = self.node_id as int;
        assert(pairs@ == es[u]);
        assert(t[u] == self.trie.node_pool@[u]@);
        let mut out: Vec<(u32, Self)> = Vec::new();
        let mut i: usize = 0;
        while i < pairs.len()
            invariant
                i <= pairs@.len(),
                out@.len() == i,
                pairs@ == es[u],
                es == self.trie.all_entries(),
                forall|j: int|
                    0 <= j < i ==> (#[trigger] out@[j]) == (
                        pairs@[j].0,
                        TrieState { trie: self.trie, node_id: pairs@[j].1 },
                    ),
            decreases pairs@.len() - i,
        {
            out.push((pairs[i].0, TrieState { trie: self.trie, node_id: pairs[i].1 }));
            i += 1;
        }
        proof {
            assert(out@ =~= self.children());
            assert forall|j: int| 0 <= j < out@.len() implies (#[trigger] out@[j]).1.wf() && u
                < out@[j].1.node_id < es.len() && out@[j].0 < T::alphabet_size() by {
                assert(t[u].trans.contains_key(pairs@[j].0));
                assert(child_ok(t, u, pairs@[j].0));
            }
            assert forall|a: int, b: int| 0 <= a < b < out@.len() implies (#[trigger] out@[a]).0 != (
            #[trigger] out@[b]).0 by {
                assert(pairs@[a].0 != pairs@[b].0);
            }
            let sizes = Seq::new(out@.len(), |j: int| out@[j].1.size());
            assert forall|j: int| 0 <= j < es[u].len() implies u < (#[trigger] es[u][j]).1 < es.len()
                && sizes[j] == 1 + tree_sum(es, es[u][j].1 as int, es[es[u][j].1 as int].len() as int) by {
                assert(out@[j].1.wf());
                assert(out@[j].1.node_id == es[u][j].1);
                assert(out@[j].1.trie == self.trie);
            }
            lemma_tree_sum(es, u, sizes, pairs@.len() as int);
            assert(sizes.take(pairs@.len() as int) =~= sizes);
        }
        out
    }
}

/// The nodes below the first `i` children of `u` are those of the subtrees
/// of these children.
pub proof fn lemma_tree_sum(es: Seq<Seq<(u32, usize)>>, u: int, sizes: Seq<nat>, i: int)
    requires
        0 <= u < es.len(),
        0 <= i <= es[u].len(),
        sizes.len() == es[u].len(),
        forall|j: int|
            0 <= j < es[u].len() ==> u < (#[trigger] es[u][j]).1 < es.len() && sizes[j] == 1 + tree_sum(
                es,
                es[u][j].1 as int,
                es[es[u][j].1 as int].len() as int,
            ),
    ensures
        tree_sum(es, u, i) == sum_nat(sizes.take(i)),
    decreases i,
{
    if i > 0 {
        lemma_tree_sum(es, u, sizes, i - 1);
        assert(sizes.take(i).drop_last() =~= sizes.take(i - 1));
        assert(sizes.take(i).last() == sizes[i - 1]);
        assert(u < es[u][i - 1].1 < es.len());
    } else {
        assert(sizes.take(0) =~= Seq::<nat>::empty());
    }
}

/// The token of a node of a trie: its index.
pub open spec fn node_token<'a, T: TransitionTable>() -> spec_fn(TrieState<'a, T>) -> usize {
    |tn: TrieState<'a, T>| tn.node_id
}

/// The walk of the cursor from the root of a trie is the walk through the
/// nodes of the trie.
pub proof fn lemma_trie_walk<T: TransitionTable>(root: TrieState<'_, T>, w: Seq<u32>)
    requires
        root.trie.wf(),
        root.node_id == 1,
    ensures
        walk(root, w) is Some <==> trie_run(root.trie.nodes(), 1, w) != 0,
        walk(root, w) matches Some(c) ==> c.trie == root.trie && c.node_id == trie_run(
            root.trie.nodes(),
            1,
            w,
        ) && c.accepting() == trie_accepts(root.trie.nodes(), w),
    decreases w.len(),
{
    let t = root.trie.nodes();
    lemma_run_in_range(t, 1, w);
    if w.len() > 0 {
        let x = w.drop_last();
        let k = w.last();
        lemma_trie_walk(root, x);
        lemma_run_in_range(t, 1, x);
        match walk(root, x) {
            Some(p) => {
                let u = p.node_id as int;
                let e = root.trie.all_entries()[u];
                assert(root.trie.node_pool@[u].table_wf());
                root.trie.node_pool@[u].trans.lemma_entries();
                assert(t[u] == root.trie.node_pool@[u]@);
                assert(entries_agree(e, t[u].trans));
                let c = p.children();
                assert(c.len() == e.len());
                if t[u].trans.contains_key(k) {
                    assert(child_ok(t, u, k));
                    let i = choose|i: int| 0 <= i < e.len() && (#[trigger] e[i]).0 == k;
                    assert(c[i].0 == k);
                    let i0 = choose|i: int| 0 <= i < c.len() && (#[trigger] c[i]).0 == k;
                    assert(e[i0].0 == k);
                    assert(e[i0].1 == t[u].trans[k]);
                    assert(child_at(p, k) == Some(c[i0].1));
                } else {
                    if exists|i: int| 0 <= i < c.len() && (#[trigger] c[i]).0 == k {
                        let i0 = choose|i: int| 0 <= i < c.len() && (#[trigger] c[i]).0 == k;
                        assert(e[i0].0 == k);
                        assert(false);
                    }
                }
            },
            None => {
                assert(t[0].trans =~= Map::<u32, usize>::empty());
            },
        }
    }
}

/// The words of the tree below the root of a trie, with the indices of
/// their nodes for tokens, are the words of the trie.
pub proof fn lemma_trie_vocab<'a, T: TransitionTable>(root: TrieState<'a, T>)
    requires
        root.trie.wf(),
        root.node_id == 1,
    ensures
        tree_vocab(root, node_token::<T>()) == crate::utils::tokenize::trie_vocab(root.trie.nodes()),
{
    let a = tree_vocab(root, node_token::<T>());
    let b = crate::utils::tokenize::trie_vocab(root.trie.nodes());
    assert forall|x: Seq<u32>| a.contains_key(x) <==> b.contains_key(x) by {
        lemma_trie_walk(root, x);
        lemma_run_in_range(root.trie.nodes(), 1, x);
    }
    assert forall|x: Seq<u32>| a.contains_key(x) implies a[x] == b[x] by {
        lemma_trie_walk(root, x);
    }
    assert(a =~= b);
}

} // verus!
