//! The mathematical model of a trie: a sequence of nodes with their
//! children by symbol, the words that it holds, and what an insertion does
//! to them.
use vstd::prelude::*;

verus! {

/// One node as the contracts see it.
pub struct TrieNodeView {
    pub trans: Map<u32, usize>,
    pub parent: usize,
    pub accept: bool,
}

/// Where the edge on `k` leads from `v`: to the absent node where there is
/// none.
pub open spec fn trie_step(t: Seq<TrieNodeView>, v: int, k: u32) -> int {
    if 0 <= v < t.len() && t[v].trans.contains_key(k) {
        t[v].trans[k] as int
    } else {
        0
    }
}

/// Where the symbols of `w` lead from `v`.
pub open spec fn trie_run(t: Seq<TrieNodeView>, v: int, w: Seq<u32>) -> int
    decreases w.len(),
{
    if w.len() == 0 {
        v
    } else {
        trie_step(t, trie_run(t, v, w.drop_last()), w.last())
    }
}

/// The trie holds the word `w`.
pub open spec fn trie_accepts(t: Seq<TrieNodeView>, w: Seq<u32>) -> bool {
    let v = trie_run(t, 1, w);
    0 <= v < t.len() && t[v].accept
}

/// The edge of `u` on `k` leads to a later node whose parent is `u`.
pub open spec fn child_ok(t: Seq<TrieNodeView>, u: int, k: u32) -> bool {
    let c = t[u].trans[k] as int;
    u < c < t.len() && t[c].parent == u && u >= 1
}

/// The node `c` hangs below an earlier node.
pub open spec fn parent_ok(t: Seq<TrieNodeView>, c: int) -> bool {
    let p = t[c].parent as int;
    1 <= p < c && exists|k: u32| #[trigger] t[p].trans.contains_key(k) && t[p].trans[k] == c
}

/// The structural invariant of a trie: the two reserved nodes are as they
/// must be, and the other nodes form a tree below the root in which no two
/// edges of a node lead to one child.
pub open spec fn trie_wf(t: Seq<TrieNodeView>) -> bool {
    &&& t.len() >= 2
    &&& t[0].trans =~= Map::<u32, usize>::empty()
    &&& t[0].parent == 0
    &&& !t[0].accept
    &&& t[1].parent == 0
    &&& forall|u: int, k: u32|
        0 <= u < t.len() && #[trigger] t[u].trans.contains_key(k) ==> child_ok(t, u, k)
    &&& forall|u: int, k1: u32, k2: u32|
        0 <= u < t.len() && #[trigger] t[u].trans.contains_key(k1) && #[trigger] t[u].trans.contains_key(
            k2,
        ) && k1 != k2 ==> t[u].trans[k1] != t[u].trans[k2]
    &&& forall|c: int| 2 <= c < t.len() ==> #[trigger] parent_ok(t, c)
}

/// The trie without words: the absent node and the root.
pub open spec fn empty_trie() -> Seq<TrieNodeView> {
    seq![
        TrieNodeView { trans: Map::empty(), parent: 0, accept: false },
        TrieNodeView { trans: Map::empty(), parent: 0, accept: false },
    ]
}

/// The trie without words is sound and holds no word.
pub proof fn lemma_empty_trie(w: Seq<u32>)
    ensures
        trie_wf(empty_trie()),
        !trie_accepts(empty_trie(), w),
{
    let t = empty_trie();
    assert(t[0].trans =~= Map::<u32, usize>::empty());
    let v = trie_run(t, 1, w);
    lemma_run_in_range(t, 1, w);
}

/// A walk through a sound trie stays among its nodes.
pub proof fn lemma_run_in_range(t: Seq<TrieNodeView>, v: int, w: Seq<u32>)
    requires
        t.len() >= 2,
        0 <= v < t.len(),
        forall|u: int, k: u32|
            0 <= u < t.len() && #[trigger] t[u].trans.contains_key(k) ==> child_ok(t, u, k),
    ensures
        0 <= trie_run(t, v, w) < t.len(),
    decreases w.len(),
{
    if w.len() > 0 {
        lemma_run_in_range(t, v, w.drop_last());
        let u = trie_run(t, v, w.drop_last());
        if t[u].trans.contains_key(w.last()) {
            assert(child_ok(t, u, w.last()));
        }
    }
}

/// In a sound trie one node is reached from the root by one word only.
pub proof fn lemma_path_unique(t: Seq<TrieNodeView>, w1: Seq<u32>, w2: Seq<u32>)
    requires
        trie_wf(t),
        trie_run(t, 1, w1) == trie_run(t, 1, w2),
        trie_run(t, 1, w1) != 0,
    ensures
        w1 == w2,
    decreases w1.len(),
{
    let c = trie_run(t, 1, w1);
    if w1.len() == 0 {
        if w2.len() > 0 {
            let u = trie_run(t, 1, w2.drop_last());
            lemma_run_in_range(t, 1, w2.drop_last());
            assert(t[u].trans.contains_key(w2.last()));
            assert(child_ok(t, u, w2.last()));
        }
        assert(w1 =~= w2);
    } else {
        let u1 = trie_run(t, 1, w1.drop_last());
        lemma_run_in_range(t, 1, w1.drop_last());
        assert(t[u1].trans.contains_key(w1.last()));
        assert(child_ok(t, u1, w1.last()));
        assert(w2.len() > 0);
        let u2 = trie_run(t, 1, w2.drop_last());
        lemma_run_in_range(t, 1, w2.drop_last());
        assert(t[u2].trans.contains_key(w2.last()));
        assert(child_ok(t, u2, w2.last()));
        assert(u1 == u2);
        lemma_path_unique(t, w1.drop_last(), w2.drop_last());
        assert(w1 =~= w1.drop_last().push(w1.last()));
        assert(w2 =~= w2.drop_last().push(w2.last()));
    }
}

/// The trie `t2` has grown out of `t1`: the old nodes keep their marks,
/// their parents and their edges, and whatever is new leads to new nodes,
/// none of which is marked.
pub open spec fn grown(t1: Seq<TrieNodeView>, t2: Seq<TrieNodeView>) -> bool {
    &&& t1.len() <= t2.len()
    &&& forall|u: int|
        0 <= u < t1.len() ==> (#[trigger] t2[u]).accept == t1[u].accept && t2[u].parent
            == t1[u].parent
    &&& forall|u: int, k: u32|
        0 <= u < t1.len() && #[trigger] t1[u].trans.contains_key(k) ==> t2[u].trans.contains_key(k)
            && t2[u].trans[k] == t1[u].trans[k]
    &&& forall|u: int, k: u32|
        0 <= u < t1.len() && #[trigger] t2[u].trans.contains_key(k) && !t1[u].trans.contains_key(k)
            ==> t2[u].trans[k] >= t1.len()
    &&& forall|u: int| t1.len() <= u < t2.len() ==> !(#[trigger] t2[u]).accept
}

/// A word that leads somewhere in the old trie leads to the same node in the
/// grown one.
pub proof fn lemma_grown_keeps_runs(t1: Seq<TrieNodeView>, t2: Seq<TrieNodeView>, w: Seq<u32>)
    requires
        trie_wf(t1),
        grown(t1, t2),
        trie_run(t1, 1, w) != 0,
    ensures
        trie_run(t2, 1, w) == trie_run(t1, 1, w),
    decreases w.len(),
{
    if w.len() > 0 {
        let u = trie_run(t1, 1, w.drop_last());
        lemma_run_in_range(t1, 1, w.drop_last());
        assert(t1[u].trans.contains_key(w.last()));
        assert(u != 0);
        lemma_grown_keeps_runs(t1, t2, w.drop_last());
    }
}

/// A word that leads nowhere in the old trie leads nowhere or to a new node
/// in the grown one.
pub proof fn lemma_grown_new_runs(t1: Seq<TrieNodeView>, t2: Seq<TrieNodeView>, w: Seq<u32>)
    requires
        trie_wf(t1),
        trie_wf(t2),
        grown(t1, t2),
        trie_run(t1, 1, w) == 0,
    ensures
        trie_run(t2, 1, w) == 0 || trie_run(t2, 1, w) >= t1.len(),
    decreases w.len(),
{
    if w.len() > 0 {
        let d = w.drop_last();
        let u2 = trie_run(t2, 1, d);
        lemma_run_in_range(t2, 1, d);
        lemma_run_in_range(t1, 1, d);
        if t2[u2].trans.contains_key(w.last()) {
            assert(child_ok(t2, u2, w.last()));
            if trie_run(t1, 1, d) != 0 {
                lemma_grown_keeps_runs(t1, t2, d);
                let u = trie_run(t1, 1, d);
                if t1[u].trans.contains_key(w.last()) {
                    assert(child_ok(t1, u, w.last()));
                }
            } else {
                lemma_grown_new_runs(t1, t2, d);
            }
        }
    }
}

/// Marking the node of the word `seq` in a trie grown out of `t1` adds `seq`
/// to the words of `t1` and nothing else.
pub proof fn lemma_insert_words(
    t1: Seq<TrieNodeView>,
    t2: Seq<TrieNodeView>,
    t3: Seq<TrieNodeView>,
    seq: Seq<u32>,
    w: Seq<u32>,
)
    requires
        trie_wf(t1),
        trie_wf(t2),
        grown(t1, t2),
        trie_run(t2, 1, seq) != 0,
        t3.len() == t2.len(),
        forall|u: int|
            0 <= u < t2.len() ==> (#[trigger] t3[u]) == (TrieNodeView {
                accept: t2[u].accept || u == trie_run(t2, 1, seq),
                ..t2[u]
            }),
    ensures
        trie_accepts(t3, w) == (trie_accepts(t1, w) || w == seq),
        trie_run(t3, 1, w) == trie_run(t2, 1, w),
{
    lemma_same_edges_same_runs(t2, t3, w);
    let v = trie_run(t2, 1, w);
    lemma_run_in_range(t2, 1, w);
    lemma_run_in_range(t1, 1, w);
    if v == trie_run(t2, 1, seq) {
        lemma_path_unique(t2, w, seq);
    }
    if trie_run(t1, 1, w) != 0 {
        lemma_grown_keeps_runs(t1, t2, w);
    } else {
        lemma_grown_new_runs(t1, t2, w);
    }
}

/// Two tries with the same edges lead every word to the same node.
pub proof fn lemma_same_edges_same_runs(t2: Seq<TrieNodeView>, t3: Seq<TrieNodeView>, w: Seq<u32>)
    requires
        t3.len() == t2.len(),
        forall|u: int| 0 <= u < t2.len() ==> (#[trigger] t3[u]).trans == t2[u].trans,
    ensures
        trie_run(t3, 1, w) == trie_run(t2, 1, w),
    decreases w.len(),
{
    if w.len() > 0 {
        lemma_same_edges_same_runs(t2, t3, w.drop_last());
        let u = trie_run(t2, 1, w.drop_last());
        if 0 <= u < t2.len() {
            assert(t3[u].trans == t2[u].trans);
        }
    }
}

} // verus!
