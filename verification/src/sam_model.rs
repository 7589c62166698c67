//! The mathematical model of a suffix automaton: a sequence of states, each
//! with its transitions, its suffix link and the length of its longest
//! string, and the structural invariant that construction maintains.
//!
//! A state `v` other than the root stands for the strings whose lengths lie in
//! the interval `(lo(v), len(v)]`, where `lo(v)` is the length of its suffix
//! parent's longest string. The root stands for the empty string alone.
use vstd::prelude::*;

verus! {

/// One state as the contracts see it.
pub struct NodeView {
    pub trans: Map<u32, usize>,
    pub accept: bool,
    pub len: nat,
    pub link: usize,
}

/// `u` has a transition on `k`, and it leads to `v`.
pub open spec fn edge(g: Seq<NodeView>, u: int, k: u32, v: int) -> bool {
    &&& 0 <= u < g.len()
    &&& g[u].trans.contains_key(k)
    &&& g[u].trans[k] == v
}

/// The length below the shortest string of `u`: that of its suffix parent's
/// longest string, and -1 for the root, whose only string is the empty one.
pub open spec fn lo(g: Seq<NodeView>, u: int) -> int {
    if u == 1 {
        -1
    } else {
        g[g[u].link as int].len as int
    }
}

/// The suffix link of `v` names a state with a shorter longest string.
pub open spec fn link_ok(g: Seq<NodeView>, v: int) -> bool {
    &&& 1 <= g[v].link < g.len()
    &&& g[g[v].link as int].len < g[v].len
}

/// The two reserved states are as they must be, every other state has a
/// sound suffix link, and no string is longer than there are states.
pub open spec fn shape_ok(g: Seq<NodeView>) -> bool {
    &&& g.len() >= 2
    &&& g[0].trans =~= Map::<u32, usize>::empty()
    &&& g[0].len == 0
    &&& g[0].link == 0
    &&& g[1].len == 0
    &&& g[1].link == 0
    &&& forall|v: int| 2 <= v < g.len() ==> #[trigger] link_ok(g, v)
    &&& forall|v: int| 0 <= v < g.len() ==> (#[trigger] g[v]).len + 2 <= g.len()
}

/// The transition of `u` on `k` leads to a proper state that stands for
/// longer strings, whose interval reaches down at most one below that of `u`
/// moved by one.
pub open spec fn edge_ok(g: Seq<NodeView>, u: int, k: u32) -> bool {
    let v = g[u].trans[k] as int;
    &&& 2 <= v < g.len()
    &&& g[u].len + 1 <= g[v].len
    &&& lo(g, v) <= lo(g, u) + 1
}

/// Where `u` has a transition on `k`, so has its suffix parent, and that one
/// leads to the same state or, from the lowest string on, to its suffix
/// parent.
pub open spec fn suffix_step_ok(g: Seq<NodeView>, u: int, k: u32) -> bool {
    let v = g[u].trans[k] as int;
    let t = g[u].link as int;
    u >= 2 ==> {
        &&& g[t].trans.contains_key(k)
        &&& (g[t].trans[k] == v || (g[t].trans[k] == g[v].link && g[t].len + 1
            == g[g[v].link as int].len))
    }
}

/// Every transition is sound.
pub open spec fn edges_ok(g: Seq<NodeView>) -> bool {
    forall|u: int, k: u32|
        0 <= u < g.len() && #[trigger] g[u].trans.contains_key(k) ==> edge_ok(g, u, k)
            && suffix_step_ok(g, u, k)
}

/// Two transitions into `v`, if they are not one and the same, come from
/// states whose intervals do not meet.
pub open spec fn preds_apart(g: Seq<NodeView>, u1: int, k1: u32, u2: int, k2: u32) -> bool {
    (g[u1].trans[k1] == g[u2].trans[k2] && !(u1 == u2 && k1 == k2)) ==> {
        &&& u1 != u2
        &&& (g[u1].len <= lo(g, u2) || g[u2].len <= lo(g, u1))
    }
}

/// The states that lead into one state have disjoint intervals.
pub open spec fn preds_disjoint(g: Seq<NodeView>) -> bool {
    forall|u1: int, k1: u32, u2: int, k2: u32|
        0 <= u1 < g.len() && 0 <= u2 < g.len() && #[trigger] g[u1].trans.contains_key(k1)
            && #[trigger] g[u2].trans.contains_key(k2) ==> preds_apart(g, u1, k1, u2, k2)
}

/// The transition of `u` on `k` reaches `v` and carries the longest string
/// of `u` to the longest string of `v`.
pub open spec fn primary_edge(g: Seq<NodeView>, u: int, k: u32, v: int) -> bool {
    &&& edge(g, u, k, v)
    &&& g[u].len + 1 == g[v].len
}

/// Some transition carries a longest string to the longest string of `v`.
pub open spec fn has_primary(g: Seq<NodeView>, v: int) -> bool {
    exists|u: int, k: u32| #[trigger] primary_edge(g, u, k, v)
}

/// Every state but the two reserved ones is reached along its longest string.
pub open spec fn all_primary(g: Seq<NodeView>) -> bool {
    forall|v: int| 2 <= v < g.len() ==> #[trigger] has_primary(g, v)
}

/// The structural invariant of a suffix automaton.
pub open spec fn graph_wf(g: Seq<NodeView>) -> bool {
    &&& shape_ok(g)
    &&& edges_ok(g)
    &&& preds_disjoint(g)
    &&& all_primary(g)
}

/// The automaton of the empty vocabulary: the absent state and the root.
pub open spec fn initial_graph(accept: bool) -> Seq<NodeView> {
    seq![
        NodeView { trans: Map::empty(), accept: false, len: 0, link: 0 },
        NodeView { trans: Map::empty(), accept: accept, len: 0, link: 0 },
    ]
}

/// The automaton of the empty vocabulary is sound.
pub proof fn lemma_initial_graph_wf(accept: bool)
    ensures
        graph_wf(initial_graph(accept)),
{
    let g = initial_graph(accept);
    assert(g[0].trans =~= Map::<u32, usize>::empty());
}

/// Two automata that differ in nothing but the accepting marks are sound
/// together.
pub proof fn lemma_wf_ignores_accept(g: Seq<NodeView>, h: Seq<NodeView>)
    requires
        graph_wf(g),
        h.len() == g.len(),
        forall|v: int| 0 <= v < g.len() ==> (#[trigger] h[v]) == (NodeView { accept: h[v].accept, ..g[v] }),
    ensures
        graph_wf(h),
{
    assert(h[0].trans =~= Map::<u32, usize>::empty()) by {
        assert(h[0].trans == g[0].trans);
    }
    assert forall|v: int| 2 <= v < h.len() implies #[trigger] link_ok(h, v) by {
        assert(link_ok(g, v));
        assert(h[v].link == g[v].link);
        assert(h[g[v].link as int].len == g[g[v].link as int].len);
    }
    assert forall|v: int| 0 <= v < h.len() implies (#[trigger] h[v]).len + 2 <= h.len() by {
        assert(g[v].len + 2 <= g.len());
    }
    assert forall|u: int| 1 <= u < g.len() implies lo(h, u) == lo(g, u) by {
        if u != 1 {
            assert(link_ok(g, u));
            assert(h[u].link == g[u].link);
            assert(h[g[u].link as int].len == g[g[u].link as int].len);
        }
    }
    assert forall|u: int, k: u32|
        0 <= u < h.len() && #[trigger] h[u].trans.contains_key(k) implies edge_ok(h, u, k)
        && suffix_step_ok(h, u, k) by {
        assert(h[u].trans == g[u].trans);
        assert(g[u].trans.contains_key(k));
        assert(edge_ok(g, u, k));
        assert(suffix_step_ok(g, u, k));
        let v = g[u].trans[k] as int;
        assert(h[v].len == g[v].len);
        assert(u != 0);
        assert(lo(h, u) == lo(g, u));
        assert(lo(h, v) == lo(g, v));
        if u >= 2 {
            assert(link_ok(g, u));
            let t = g[u].link as int;
            assert(h[t].trans == g[t].trans);
            assert(link_ok(g, v));
            assert(h[g[v].link as int].len == g[g[v].link as int].len);
        }
    }
    assert forall|u1: int, k1: u32, u2: int, k2: u32|
        0 <= u1 < h.len() && 0 <= u2 < h.len() && #[trigger] h[u1].trans.contains_key(k1)
            && #[trigger] h[u2].trans.contains_key(k2) implies preds_apart(h, u1, k1, u2, k2) by {
        assert(h[u1].trans == g[u1].trans);
        assert(h[u2].trans == g[u2].trans);
        assert(g[u1].trans.contains_key(k1));
        assert(g[u2].trans.contains_key(k2));
        assert(preds_apart(g, u1, k1, u2, k2));
        assert(u1 != 0 && u2 != 0);
        assert(lo(h, u1) == lo(g, u1));
        assert(lo(h, u2) == lo(g, u2));
    }
    assert forall|v: int| 2 <= v < h.len() implies #[trigger] has_primary(h, v) by {
        assert(has_primary(g, v));
        let (u, k) = choose|u: int, k: u32| #[trigger] primary_edge(g, u, k, v);
        assert(h[u].trans == g[u].trans);
        assert(primary_edge(h, u, k, v));
    }
}

/// Where the transition on `k` leads from `v`: to the absent state where
/// there is none.
pub open spec fn step(g: Seq<NodeView>, v: int, k: u32) -> int {
    if 0 <= v < g.len() && g[v].trans.contains_key(k) {
        g[v].trans[k] as int
    } else {
        0
    }
}

/// Where the symbols of `w` lead from `v`, one after the other.
pub open spec fn run(g: Seq<NodeView>, v: int, w: Seq<u32>) -> int
    decreases w.len(),
{
    if w.len() == 0 {
        v
    } else {
        step(g, run(g, v, w.drop_last()), w.last())
    }
}

/// Nothing leads out of the absent state.
pub proof fn lemma_run_from_nil(g: Seq<NodeView>, w: Seq<u32>)
    requires
        shape_ok(g),
    ensures
        run(g, 0, w) == 0,
    decreases w.len(),
{
    if w.len() > 0 {
        lemma_run_from_nil(g, w.drop_last());
        assert(g[0].trans =~= Map::<u32, usize>::empty());
    }
}

/// Reading `a` and then `b` is reading `a + b`.
pub proof fn lemma_run_concat(g: Seq<NodeView>, v: int, a: Seq<u32>, b: Seq<u32>)
    ensures
        run(g, v, a + b) == run(g, run(g, v, a), b),
    decreases b.len(),
{
    if b.len() == 0 {
        assert(a + b =~= a);
    } else {
        lemma_run_concat(g, v, a, b.drop_last());
        assert((a + b).drop_last() =~= a + b.drop_last());
        assert((a + b).last() == b.last());
    }
}

/// The symbols that stand for a sequence of bytes.
pub open spec fn bytes_to_symbols(s: Seq<u8>) -> Seq<u32> {
    Seq::new(s.len(), |i: int| s[i] as u32)
}

/// The symbols that stand for a sequence of characters: their code points.
pub open spec fn chars_to_symbols(s: Seq<char>) -> Seq<u32> {
    Seq::new(s.len(), |i: int| s[i] as u32)
}

} // verus!
