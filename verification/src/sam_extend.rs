//! One extension step on the model: what it does to the states, and the proof
//! that it keeps the structural invariant.
use crate::sam_model::{
    all_primary, edge, edge_ok, edges_ok, graph_wf, has_primary, link_ok, lo, preds_apart,
    preds_disjoint, primary_edge, shape_ok, suffix_step_ok, NodeView,
};
use vstd::prelude::*;

verus! {

/// What one extension step did: from which state, on which symbol, which
/// states gained a transition to the new state, where the walk up the suffix
/// links stopped, and which states were redirected to a clone.
pub struct ExtendPlan {
    pub last: int,
    pub key: u32,
    pub accept: bool,
    pub chain: Seq<int>,
    pub p: int,
    pub cloned: bool,
    pub red: Seq<int>,
}

/// The state that the walk found behind `key`, when it stopped at a state.
pub open spec fn plan_q(g: Seq<NodeView>, plan: ExtendPlan) -> int {
    g[plan.p].trans[plan.key] as int
}

/// The states of `chain` are the suffix ancestors of its first state in
/// order, none has a transition on `key`, and `p` follows the last of them.
pub open spec fn chain_ok(g: Seq<NodeView>, chain: Seq<int>, key: u32, p: int) -> bool {
    &&& chain.len() >= 1
    &&& forall|i: int|
        0 <= i < chain.len() ==> 1 <= (#[trigger] chain[i]) < g.len() && !g[chain[i]].trans.contains_key(
            key,
        )
    &&& forall|i: int|
        0 <= i < chain.len() - 1 ==> g[#[trigger] chain[i]].link == chain[i + 1]
    &&& g[chain.last()].link == p
    &&& forall|i: int, j: int|
        0 <= i < j < chain.len() ==> g[#[trigger] chain[j]].len < g[#[trigger] chain[i]].len
    &&& forall|i: int| 0 <= i < chain.len() ==> p != 0 ==> g[p].len < g[#[trigger] chain[i]].len
}

/// The states of `red` are suffix ancestors in order, each leads to `q` on
/// `key`, and the state after the last of them does not.
pub open spec fn red_ok(g: Seq<NodeView>, red: Seq<int>, key: u32, q: int) -> bool {
    &&& red.len() >= 1
    &&& forall|i: int| 0 <= i < red.len() ==> 1 <= (#[trigger] red[i]) && edge(g, red[i], key, q)
    &&& forall|i: int| 0 <= i < red.len() - 1 ==> g[#[trigger] red[i]].link == red[i + 1]
    &&& forall|i: int, j: int|
        0 <= i < j < red.len() ==> g[#[trigger] red[j]].len < g[#[trigger] red[i]].len
    &&& !edge(g, g[red.last()].link as int, key, q)
}

/// The plan describes an extension step that the automaton `g` admits.
pub open spec fn plan_ok(g: Seq<NodeView>, plan: ExtendPlan) -> bool {
    &&& 1 <= plan.last < g.len()
    &&& chain_ok(g, plan.chain, plan.key, plan.p)
    &&& plan.chain[0] == plan.last
    &&& 0 <= plan.p < g.len()
    &&& plan.p != 0 ==> g[plan.p].trans.contains_key(plan.key)
    &&& plan.cloned <==> (plan.p != 0 && g[plan_q(g, plan)].len != g[plan.p].len + 1)
    &&& plan.cloned ==> red_ok(g, plan.red, plan.key, plan_q(g, plan)) && plan.red[0] == plan.p
    &&& !plan.cloned ==> plan.red.len() == 0
}

/// The transitions of an old state after the step.
pub open spec fn trans_after(g: Seq<NodeView>, plan: ExtendPlan, i: int) -> Map<u32, usize> {
    if plan.chain.contains(i) {
        g[i].trans.insert(plan.key, g.len() as usize)
    } else if plan.red.contains(i) {
        g[i].trans.insert(plan.key, (g.len() + 1) as usize)
    } else {
        g[i].trans
    }
}

/// The suffix link of the new state.
pub open spec fn new_link(g: Seq<NodeView>, plan: ExtendPlan) -> usize {
    if plan.p == 0 {
        1
    } else if plan.cloned {
        (g.len() + 1) as usize
    } else {
        plan_q(g, plan) as usize
    }
}

/// The automaton after the step.
pub open spec fn extended(g: Seq<NodeView>, plan: ExtendPlan) -> Seq<NodeView> {
    let n = g.len() as int;
    let q = plan_q(g, plan);
    Seq::new(
        (if plan.cloned {
            n + 2
        } else {
            n + 1
        }) as nat,
        |i: int|
            if i < n {
                NodeView {
                    trans: trans_after(g, plan, i),
                    accept: g[i].accept,
                    len: g[i].len,
                    link: if plan.cloned && i == q {
                        (n + 1) as usize
                    } else {
                        g[i].link
                    },
                }
            } else if i == n {
                NodeView {
                    trans: Map::empty(),
                    accept: plan.accept,
                    len: g[plan.last].len + 1,
                    link: new_link(g, plan),
                }
            } else {
                NodeView {
                    trans: trans_after(g, plan, q),
                    accept: g[q].accept,
                    len: g[plan.p].len + 1,
                    link: g[q].link,
                }
            },
    )
}

/// What the plan implies at once: where `q` lies, that `chain` and `red`
/// share no state, and how the lengths along them compare.
pub proof fn lemma_plan_facts(g: Seq<NodeView>, plan: ExtendPlan)
    requires
        graph_wf(g),
        plan_ok(g, plan),
        extended(g, plan).len() <= usize::MAX,
    ensures
        !plan.chain.contains(plan.p),
        !plan.chain.contains(0),
        !plan.red.contains(0),
        forall|i: int| 0 <= i < plan.chain.len() ==> g[#[trigger] plan.chain[i]].len <= g[plan.last].len,
        plan.p != 0 ==> g[plan.p].len < g[plan.last].len,
        plan.p == 0 ==> plan.chain.last() == 1,
        plan.p != 0 ==> 2 <= plan_q(g, plan) < g.len() && g[plan.p].len + 1 <= g[plan_q(g, plan)].len,
        plan.cloned ==> g[plan.p].len + 1 < g[plan_q(g, plan)].len,
        plan.cloned ==> !plan.red.contains(plan_q(g, plan)),
        forall|i: int| 0 <= i < plan.red.len() ==> 1 <= (#[trigger] plan.red[i]) < g.len()
            && !plan.chain.contains(plan.red[i]) && g[plan.red[i]].len <= g[plan.p].len,
        plan.cloned && plan.chain.contains(plan_q(g, plan)) ==> g[plan_q(g, plan)].link == plan.p
            && plan.chain.last() == plan_q(g, plan),
{
    let chain = plan.chain;
    let red = plan.red;
    let p = plan.p;
    let key = plan.key;
    let q = plan_q(g, plan);
    assert(chain[0] == plan.last);
    if p == 0 {
        let b = chain.last();
        if b != 1 {
            assert(link_ok(g, b));
        }
    } else {
        assert(edge_ok(g, p, key));
        assert(g[p].len < g[chain[0]].len);
    }
    assert forall|i: int| 0 <= i < chain.len() implies g[#[trigger] chain[i]].len <= g[plan.last].len by {
        if i > 0 {
            assert(g[chain[i]].len < g[chain[0]].len);
        }
    }
    if plan.cloned {
        assert(red[0] == p);
        assert forall|i: int| 0 <= i < red.len() implies 1 <= (#[trigger] red[i]) < g.len()
            && !chain.contains(red[i]) && g[red[i]].len <= g[p].len && red[i] != q by {
            if i > 0 {
                assert(g[red[i]].len < g[red[0]].len);
            }
            assert(edge(g, red[i], key, q));
            assert(edge_ok(g, red[i], key));
        }
        if chain.contains(q) {
            let i = choose|i: int| 0 <= i < chain.len() && chain[i] == q;
            assert(link_ok(g, q));
            // lo(q) <= lo(p) + 1 <= len(p)
            if p != 1 {
                assert(link_ok(g, p));
            }
            assert(lo(g, q) <= g[p].len);
            if i < chain.len() - 1 {
                assert(g[chain[i]].link == chain[i + 1]);
                assert(g[p].len < g[chain[i + 1]].len);
                assert(false);
            }
            assert(chain.last() == q);
        }
    }
}

/// The step keeps the reserved states, the suffix links and the length bound
/// sound.
pub proof fn lemma_extend_shape(g: Seq<NodeView>, plan: ExtendPlan)
    requires
        graph_wf(g),
        plan_ok(g, plan),
        extended(g, plan).len() <= usize::MAX,
    ensures
        shape_ok(extended(g, plan)),
{
    lemma_plan_facts(g, plan);
    let h = extended(g, plan);
    let n = g.len() as int;
    let p = plan.p;
    let q = plan_q(g, plan);
    assert(h[0].trans =~= Map::<u32, usize>::empty());
    assert forall|v: int| 2 <= v < h.len() implies #[trigger] link_ok(h, v) by {
        if v < n {
            assert(link_ok(g, v));
        } else if v == n {
        } else {
            assert(link_ok(g, q));
            assert(edge_ok(g, p, plan.key));
            if p != 1 {
                assert(link_ok(g, p));
            }
        }
    }
    assert forall|v: int| 0 <= v < h.len() implies (#[trigger] h[v]).len + 2 <= h.len() by {
        if v < n {
            assert(g[v].len + 2 <= g.len());
        } else if v == n {
            assert(g[plan.last].len + 2 <= g.len());
        } else {
            assert(g[p].len + 2 <= g.len());
        }
    }
}

/// A state that leads to `q` and is no longer than some redirected state is
/// itself redirected.
proof fn lemma_short_pred_is_redirected(g: Seq<NodeView>, plan: ExtendPlan, u: int, k: u32, i: int)
    requires
        graph_wf(g),
        plan_ok(g, plan),
        extended(g, plan).len() <= usize::MAX,
        plan.cloned,
        edge(g, u, k, plan_q(g, plan)),
        0 <= i < plan.red.len(),
        g[u].len <= g[plan.red[i]].len,
    ensures
        plan.red.contains(u),
    decreases plan.red.len() - i,
{
    lemma_plan_facts(g, plan);
    let red = plan.red;
    let key = plan.key;
    let q = plan_q(g, plan);
    let b = red[i];
    if !red.contains(u) {
        assert(edge(g, b, key, q));
        assert(red.contains(b));
        assert(preds_apart(g, u, k, b, key));
        assert(u != 0);
        if u != 1 {
            assert(link_ok(g, u));
        }
        assert(lo(g, u) < g[u].len);
        assert(g[u].len <= lo(g, b));
        assert(b != 1);
        let e = g[b].link as int;
        if i + 1 < red.len() {
            assert(red[i + 1] == e);
            lemma_short_pred_is_redirected(g, plan, u, k, i + 1);
        } else {
            assert(b == red.last());
            assert(link_ok(g, b));
            assert(suffix_step_ok(g, b, key));
            assert(!edge(g, e, key, q));
            assert(g[e].trans[key] != q);
            assert(edge_ok(g, u, k));
            assert(link_ok(g, q));
            assert(g[e].len + 1 == lo(g, q));
            assert(false);
        }
    }
}

/// After the redirection every state that still leads to `q` has an interval
/// that lies above the longest string of `p`.
pub proof fn lemma_remaining_preds(g: Seq<NodeView>, plan: ExtendPlan, u: int, k: u32)
    requires
        graph_wf(g),
        plan_ok(g, plan),
        extended(g, plan).len() <= usize::MAX,
        plan.cloned,
        edge(g, u, k, plan_q(g, plan)),
        !(plan.red.contains(u) && k == plan.key),
    ensures
        !plan.red.contains(u),
        g[plan.p].len <= lo(g, u),
{
    lemma_plan_facts(g, plan);
    let red = plan.red;
    let key = plan.key;
    let q = plan_q(g, plan);
    let p = plan.p;
    if red.contains(u) {
        let j = choose|j: int| 0 <= j < red.len() && red[j] == u;
        assert(edge(g, red[j], key, q));
        assert(preds_apart(g, u, k, u, key));
        assert(false);
    }
    assert(red[0] == p);
    assert(edge(g, p, key, q));
    assert(preds_apart(g, u, k, p, key));
    if p != 1 {
        assert(link_ok(g, p));
    }
    if g[p].len > lo(g, u) {
        lemma_short_pred_is_redirected(g, plan, u, k, 0);
    }
}

/// The lower ends of the intervals after the step.
pub proof fn lemma_lo_after(g: Seq<NodeView>, plan: ExtendPlan, x: int)
    requires
        graph_wf(g),
        plan_ok(g, plan),
        extended(g, plan).len() <= usize::MAX,
        1 <= x < extended(g, plan).len(),
    ensures
        x < g.len() && !(plan.cloned && x == plan_q(g, plan)) ==> lo(extended(g, plan), x) == lo(
            g,
            x,
        ),
        x < g.len() ==> lo(g, x) <= lo(extended(g, plan), x),
        plan.cloned && x == plan_q(g, plan) ==> lo(extended(g, plan), x) == g[plan.p].len + 1,
        plan.cloned && x == g.len() + 1 ==> lo(extended(g, plan), x) == lo(g, plan_q(g, plan)),
        plan.cloned ==> lo(g, plan_q(g, plan)) <= g[plan.p].len,
        x == g.len() ==> lo(extended(g, plan), x) == (if plan.p == 0 {
            0
        } else {
            g[plan.p].len + 1
        }),
        lo(g, plan.p) < g[plan.p].len || plan.p == 0,
{
    lemma_plan_facts(g, plan);
    let h = extended(g, plan);
    let n = g.len() as int;
    let p = plan.p;
    let q = plan_q(g, plan);
    if p != 0 {
        assert(edge_ok(g, p, plan.key));
        assert(link_ok(g, q));
        if p != 1 {
            assert(link_ok(g, p));
        }
    }
    if x < n && x != 1 {
        assert(link_ok(g, x));
    }
}

/// Every transition of the extended automaton is sound.
pub proof fn lemma_extend_edge(g: Seq<NodeView>, plan: ExtendPlan, u: int, k: u32)
    requires
        graph_wf(g),
        plan_ok(g, plan),
        extended(g, plan).len() <= usize::MAX,
        0 <= u < extended(g, plan).len(),
        extended(g, plan)[u].trans.contains_key(k),
    ensures
        edge_ok(extended(g, plan), u, k),
        suffix_step_ok(extended(g, plan), u, k),
{
    lemma_plan_facts(g, plan);
    lemma_extend_shape(g, plan);
    let h = extended(g, plan);
    let n = g.len() as int;
    let p = plan.p;
    let q = plan_q(g, plan);
    let key = plan.key;
    let chain = plan.chain;
    let red = plan.red;
    let v = h[u].trans[k] as int;
    assert(u != 0) by {
        assert(h[0].trans =~= Map::<u32, usize>::empty());
    }
    lemma_lo_after(g, plan, u);
    if u < n {
        if chain.contains(u) && k == key {
            let i = choose|i: int| 0 <= i < chain.len() && chain[i] == u;
            assert(v == n);
            lemma_lo_after(g, plan, n);
            if u == 1 {
                if i < chain.len() - 1 {
                    assert(g[chain[i]].link == chain[i + 1]);
                }
                assert(p == 0);
            } else {
                assert(link_ok(g, u));
                if plan.cloned && u == q {
                    assert(h[n + 1].trans.contains_key(key));
                } else {
                    let t = g[u].link as int;
                    assert(h[u].link == t);
                    if i < chain.len() - 1 {
                        assert(g[chain[i]].link == chain[i + 1]);
                        assert(chain.contains(chain[i + 1]));
                        assert(p != 0 ==> g[p].len < g[chain[i + 1]].len);
                        assert(h[t].trans[key] == n);
                    } else {
                        assert(t == p);
                        if plan.cloned {
                            assert(red[0] == p);
                            assert(red.contains(p));
                        } else {
                            assert(!red.contains(p));
                        }
                    }
                }
            }
            assert(edge_ok(h, u, k));
            assert(suffix_step_ok(h, u, k));
        } else if red.contains(u) && k == key {
            let j = choose|j: int| 0 <= j < red.len() && red[j] == u;
            assert(!chain.contains(red[j]));
            assert(v == n + 1);
            assert(edge(g, red[j], key, q));
            assert(edge_ok(g, u, key));
            assert(suffix_step_ok(g, u, key));
            lemma_lo_after(g, plan, n + 1);
            assert(g[red[j]].len <= g[p].len);
            if u >= 2 {
                assert(link_ok(g, u));
                let t = g[u].link as int;
                assert(h[u].link == t);
                if j < red.len() - 1 {
                    assert(g[red[j]].link == red[j + 1]);
                    assert(red.contains(red[j + 1]));
                    assert(!chain.contains(red[j + 1]));
                    assert(h[t].trans[key] == n + 1);
                } else {
                    assert(u == red.last());
                    assert(!edge(g, t, key, q));
                    if red.contains(t) {
                        let m = choose|m: int| 0 <= m < red.len() && red[m] == t;
                        assert(edge(g, red[m], key, q));
                    }
                    if chain.contains(t) {
                        let m = choose|m: int| 0 <= m < chain.len() && chain[m] == t;
                        assert(!g[chain[m]].trans.contains_key(key));
                    }
                    assert(h[t].trans == g[t].trans);
                    assert(link_ok(g, q));
                }
            }
            assert(edge_ok(h, u, k));
            assert(suffix_step_ok(h, u, k));
        } else {
            assert(g[u].trans.contains_key(k) && v == g[u].trans[k]) by {
                if chain.contains(u) {
                    assert(k != key);
                } else if red.contains(u) {
                    assert(k != key);
                }
            }
            assert(edge_ok(g, u, k));
            assert(suffix_step_ok(g, u, k));
            lemma_lo_after(g, plan, v);
            if plan.cloned && v == q {
                assert(edge(g, u, k, q));
                lemma_remaining_preds(g, plan, u, k);
            }
            assert(edge_ok(h, u, k));
            if u >= 2 {
                assert(link_ok(g, u));
                if plan.cloned && u == q {
                    assert(!red.contains(q));
                    assert(h[n + 1].trans.contains_key(k));
                    assert(h[n + 1].trans[k] == v);
                } else {
                    let t = g[u].link as int;
                    assert(h[u].link == t);
                    let w0 = g[t].trans[k] as int;
                    assert(g[t].trans.contains_key(k));
                    assert(edge_ok(g, t, k));
                    if chain.contains(t) && k == key {
                        let m = choose|m: int| 0 <= m < chain.len() && chain[m] == t;
                        assert(!g[chain[m]].trans.contains_key(key));
                        assert(false);
                    } else if red.contains(t) && k == key {
                        let m = choose|m: int| 0 <= m < red.len() && red[m] == t;
                        assert(edge(g, red[m], key, q));
                        assert(g[red[m]].len <= g[p].len);
                        assert(w0 == q);
                        assert(!chain.contains(red[m]));
                        assert(h[t].trans[k] == n + 1);
                        if v == q {
                            assert(edge(g, u, k, q));
                            lemma_remaining_preds(g, plan, u, k);
                        } else {
                            assert(false);
                        }
                    } else {
                        assert(h[t].trans.contains_key(k) && h[t].trans[k] == w0);
                        if w0 != v {
                            if plan.cloned && v == q {
                                assert(edge(g, u, k, q));
                                lemma_remaining_preds(g, plan, u, k);
                                lemma_lo_after(g, plan, q);
                                assert(link_ok(g, q));
                                assert(false);
                            }
                        }
                    }
                }
            }
            assert(suffix_step_ok(h, u, k));
        }
    } else if u == n {
        assert(h[n].trans =~= Map::<u32, usize>::empty());
    } else {
        assert(plan.cloned);
        assert(!red.contains(q));
        assert(link_ok(g, q));
        lemma_lo_after(g, plan, n + 1);
        if chain.contains(q) && k == key {
            assert(v == n);
            lemma_lo_after(g, plan, n);
            assert(red[0] == p);
            assert(red.contains(p));
            assert(!chain.contains(p));
            assert(h[p].trans[key] == n + 1);
            assert(edge_ok(h, u, k));
            assert(suffix_step_ok(h, u, k));
        } else {
            assert(g[q].trans.contains_key(k) && v == g[q].trans[k]);
            assert(edge_ok(g, q, k));
            assert(suffix_step_ok(g, q, k));
            lemma_lo_after(g, plan, v);
            assert(v != q);
            assert(edge_ok(h, u, k));
            let z = g[q].link as int;
            let w0 = g[z].trans[k] as int;
            assert(edge_ok(g, z, k));
            if chain.contains(z) && k == key {
                let m = choose|m: int| 0 <= m < chain.len() && chain[m] == z;
                assert(!g[chain[m]].trans.contains_key(key));
                assert(false);
            } else if red.contains(z) && k == key {
                let m = choose|m: int| 0 <= m < red.len() && red[m] == z;
                assert(edge(g, red[m], key, q));
                assert(g[red[m]].len <= g[p].len);
                assert(false);
            } else {
                assert(h[z].trans.contains_key(k) && h[z].trans[k] == w0);
            }
            assert(suffix_step_ok(h, u, k));
        }
    }
}

/// The step keeps every transition sound.
pub proof fn lemma_extend_edges(g: Seq<NodeView>, plan: ExtendPlan)
    requires
        graph_wf(g),
        plan_ok(g, plan),
        extended(g, plan).len() <= usize::MAX,
    ensures
        edges_ok(extended(g, plan)),
{
    let h = extended(g, plan);
    assert forall|u: int, k: u32|
        0 <= u < h.len() && #[trigger] h[u].trans.contains_key(k) implies edge_ok(h, u, k)
        && suffix_step_ok(h, u, k) by {
        lemma_extend_edge(g, plan, u, k);
    }
}

/// Where a transition of the extended automaton leads, by its kind.
pub proof fn lemma_target_after(g: Seq<NodeView>, plan: ExtendPlan, u: int, k: u32)
    requires
        graph_wf(g),
        plan_ok(g, plan),
        extended(g, plan).len() <= usize::MAX,
        0 <= u < extended(g, plan).len(),
        extended(g, plan)[u].trans.contains_key(k),
    ensures
        u != 0 && u != g.len(),
        ({
            let h = extended(g, plan);
            let n = g.len() as int;
            let q = plan_q(g, plan);
            let src = if u < n {
                u
            } else {
                q
            };
            let v = h[u].trans[k] as int;
            &&& (u > n ==> plan.cloned)
            &&& (plan.chain.contains(src) && k == plan.key ==> v == n)
            &&& (u < n && plan.red.contains(u) && k == plan.key ==> v == n + 1)
            &&& (!(plan.chain.contains(src) && k == plan.key) && !(u < n && plan.red.contains(u)
                && k == plan.key) ==> v < n && edge(g, src, k, v))
        }),
{
    lemma_plan_facts(g, plan);
    let h = extended(g, plan);
    let n = g.len() as int;
    assert(h[0].trans =~= Map::<u32, usize>::empty());
    assert(h[n].trans =~= Map::<u32, usize>::empty());
    let q = plan_q(g, plan);
    let src = if u < n {
        u
    } else {
        q
    };
    assert(h[u].trans == trans_after(g, plan, src));
    if g[src].trans.contains_key(k) {
        assert(edge_ok(g, src, k));
    }
}

/// Two transitions of the extended automaton into one state come from states
/// whose intervals do not meet.
pub proof fn lemma_extend_pair(
    g: Seq<NodeView>,
    plan: ExtendPlan,
    u1: int,
    k1: u32,
    u2: int,
    k2: u32,
)
    requires
        graph_wf(g),
        plan_ok(g, plan),
        extended(g, plan).len() <= usize::MAX,
        0 <= u1 < extended(g, plan).len(),
        0 <= u2 < extended(g, plan).len(),
        extended(g, plan)[u1].trans.contains_key(k1),
        extended(g, plan)[u2].trans.contains_key(k2),
    ensures
        preds_apart(extended(g, plan), u1, k1, u2, k2),
{
    lemma_plan_facts(g, plan);
    let h = extended(g, plan);
    let n = g.len() as int;
    let p = plan.p;
    let q = plan_q(g, plan);
    let key = plan.key;
    let chain = plan.chain;
    let red = plan.red;
    lemma_target_after(g, plan, u1, k1);
    lemma_target_after(g, plan, u2, k2);
    lemma_lo_after(g, plan, u1);
    lemma_lo_after(g, plan, u2);
    let v = h[u1].trans[k1] as int;
    if h[u1].trans[k1] == h[u2].trans[k2] && !(u1 == u2 && k1 == k2) {
        if v == n {
            assert(k1 == key && k2 == key);
            if u1 < n && u2 < n {
                let i = choose|i: int| 0 <= i < chain.len() && chain[i] == u1;
                let j = choose|j: int| 0 <= j < chain.len() && chain[j] == u2;
                lemma_chain_pair(g, plan, i, j);
                lemma_chain_pair(g, plan, j, i);
            } else if u1 < n {
                let i = choose|i: int| 0 <= i < chain.len() && chain[i] == u1;
                lemma_chain_above_clone(g, plan, i);
            } else if u2 < n {
                let j = choose|j: int| 0 <= j < chain.len() && chain[j] == u2;
                lemma_chain_above_clone(g, plan, j);
            }
        } else if v == n + 1 {
            assert(u1 < n && u2 < n);
            assert(k1 == key && k2 == key);
            let i = choose|i: int| 0 <= i < red.len() && red[i] == u1;
            let j = choose|j: int| 0 <= j < red.len() && red[j] == u2;
            assert(edge(g, red[i], key, q));
            assert(edge(g, red[j], key, q));
            assert(preds_apart(g, u1, key, u2, key));
        } else {
            let s1 = if u1 < n {
                u1
            } else {
                q
            };
            let s2 = if u2 < n {
                u2
            } else {
                q
            };
            assert(edge(g, s1, k1, v));
            assert(edge(g, s2, k2, v));
            assert(preds_apart(g, s1, k1, s2, k2));
            if plan.cloned {
                assert(link_ok(g, q));
            }
        }
    }
}

/// Two different states of the chain have intervals that do not meet, also
/// after the step.
proof fn lemma_chain_pair(g: Seq<NodeView>, plan: ExtendPlan, i: int, j: int)
    requires
        graph_wf(g),
        plan_ok(g, plan),
        extended(g, plan).len() <= usize::MAX,
        0 <= i < plan.chain.len(),
        0 <= j < plan.chain.len(),
    ensures
        i == j ==> plan.chain[i] == plan.chain[j],
        i < j ==> plan.chain[i] != plan.chain[j] && g[plan.chain[j]].len <= lo(
            extended(g, plan),
            plan.chain[i],
        ),
{
    lemma_plan_facts(g, plan);
    let chain = plan.chain;
    if i < j {
        let u1 = chain[i];
        assert(g[chain[j]].len < g[chain[i]].len);
        assert(g[chain[i]].link == chain[i + 1]);
        assert(u1 != 1);
        assert(link_ok(g, u1));
        lemma_lo_after(g, plan, u1);
        if i + 1 < j {
            assert(g[chain[j]].len < g[chain[i + 1]].len);
        }
    }
}

/// When the cloned state lies on the chain, the interval of each state of the
/// chain lies above that of the clone.
proof fn lemma_chain_above_clone(g: Seq<NodeView>, plan: ExtendPlan, i: int)
    requires
        graph_wf(g),
        plan_ok(g, plan),
        extended(g, plan).len() <= usize::MAX,
        plan.cloned,
        plan.chain.contains(plan_q(g, plan)),
        0 <= i < plan.chain.len(),
    ensures
        g[plan.p].len + 1 <= lo(extended(g, plan), plan.chain[i]),
{
    lemma_plan_facts(g, plan);
    let chain = plan.chain;
    let u1 = chain[i];
    lemma_lo_after(g, plan, u1);
    if u1 != plan_q(g, plan) {
        if i < chain.len() - 1 {
            assert(g[chain[i]].link == chain[i + 1]);
            assert(g[plan.p].len < g[chain[i + 1]].len);
        }
        if u1 != 1 {
            assert(link_ok(g, u1));
        }
    }
}

/// The step keeps the intervals of the states that lead into one state apart.
pub proof fn lemma_extend_disjoint(g: Seq<NodeView>, plan: ExtendPlan)
    requires
        graph_wf(g),
        plan_ok(g, plan),
        extended(g, plan).len() <= usize::MAX,
    ensures
        preds_disjoint(extended(g, plan)),
{
    let h = extended(g, plan);
    assert forall|u1: int, k1: u32, u2: int, k2: u32|
        0 <= u1 < h.len() && 0 <= u2 < h.len() && #[trigger] h[u1].trans.contains_key(k1)
            && #[trigger] h[u2].trans.contains_key(k2) implies preds_apart(h, u1, k1, u2, k2) by {
        lemma_extend_pair(g, plan, u1, k1, u2, k2);
    }
}

/// After the step every proper state is still reached along its longest
/// string.
pub proof fn lemma_extend_primary(g: Seq<NodeView>, plan: ExtendPlan)
    requires
        graph_wf(g),
        plan_ok(g, plan),
        extended(g, plan).len() <= usize::MAX,
    ensures
        all_primary(extended(g, plan)),
{
    lemma_plan_facts(g, plan);
    let h = extended(g, plan);
    let n = g.len() as int;
    let p = plan.p;
    let q = plan_q(g, plan);
    let key = plan.key;
    let chain = plan.chain;
    let red = plan.red;
    assert forall|v: int| 2 <= v < h.len() implies #[trigger] has_primary(h, v) by {
        if v < n {
            assert(has_primary(g, v));
            let (u0, k0) = choose|u0: int, k0: u32| #[trigger] primary_edge(g, u0, k0, v);
            if chain.contains(u0) {
                let i = choose|i: int| 0 <= i < chain.len() && chain[i] == u0;
                assert(!g[chain[i]].trans.contains_key(key));
            } else if red.contains(u0) && k0 == key {
                let j = choose|j: int| 0 <= j < red.len() && red[j] == u0;
                assert(edge(g, red[j], key, q));
                assert(g[red[j]].len <= g[p].len);
                assert(false);
            }
            assert(primary_edge(h, u0, k0, v));
        } else if v == n {
            assert(chain[0] == plan.last);
            assert(chain.contains(plan.last));
            assert(primary_edge(h, plan.last, key, v));
        } else {
            assert(red[0] == p);
            assert(red.contains(p));
            assert(!chain.contains(p));
            assert(primary_edge(h, p, key, v));
        }
    }
}

/// An extension step keeps the structural invariant.
pub proof fn lemma_extend_wf(g: Seq<NodeView>, plan: ExtendPlan)
    requires
        graph_wf(g),
        plan_ok(g, plan),
        extended(g, plan).len() <= usize::MAX,
    ensures
        graph_wf(extended(g, plan)),
{
    lemma_extend_shape(g, plan);
    lemma_extend_edges(g, plan);
    lemma_extend_disjoint(g, plan);
    lemma_extend_primary(g, plan);
}

/// The transition of `u` on `k` carries the longest string of `u` to the
/// longest string of its target.
pub open spec fn primary_out(g: Seq<NodeView>, u: int, k: u32) -> bool {
    &&& 0 <= u < g.len()
    &&& g[u].trans.contains_key(k)
    &&& g[u].len + 1 == g[g[u].trans[k] as int].len
}

/// A transition that carries a longest string to a longest string after the
/// step did so before it, or is the one that the step was made for, or
/// leaves a state that is shorter than the one that was extended, or leaves
/// the clone.
pub proof fn lemma_primary_after(g: Seq<NodeView>, plan: ExtendPlan, u: int, k: u32)
    requires
        graph_wf(g),
        plan_ok(g, plan),
        extended(g, plan).len() <= usize::MAX,
        primary_out(extended(g, plan), u, k),
    ensures
        u != g.len(),
        u < g.len() ==> primary_out(g, u, k) || (u == plan.last && k == plan.key) || g[u].len
            < g[plan.last].len,
{
    lemma_plan_facts(g, plan);
    lemma_target_after(g, plan, u, k);
    let chain = plan.chain;
    let red = plan.red;
    if u < g.len() {
        if chain.contains(u) && k == plan.key {
            let i = choose|i: int| 0 <= i < chain.len() && chain[i] == u;
            if i > 0 {
                assert(g[chain[i]].len < g[chain[0]].len);
            }
        } else if red.contains(u) && k == plan.key {
            let j = choose|j: int| 0 <= j < red.len() && red[j] == u;
            assert(g[red[j]].len <= g[plan.p].len);
        }
    }
}

/// The lengths after the step: old states keep theirs, the new state is one
/// longer than the extended one, and a clone is no longer than that one.
pub proof fn lemma_len_after(g: Seq<NodeView>, plan: ExtendPlan)
    requires
        graph_wf(g),
        plan_ok(g, plan),
        extended(g, plan).len() <= usize::MAX,
    ensures
        forall|v: int|
            0 <= v < g.len() ==> (#[trigger] extended(g, plan)[v]).len == g[v].len && extended(
                g,
                plan,
            )[v].accept == g[v].accept,
        extended(g, plan)[g.len() as int].len == g[plan.last].len + 1,
        extended(g, plan)[g.len() as int].accept == plan.accept,
        extended(g, plan)[g.len() as int].trans == Map::<u32, usize>::empty(),
        plan.cloned ==> extended(g, plan).len() == g.len() + 2 && extended(g, plan)[g.len() as int + 1].len
            <= g[plan.last].len,
        !plan.cloned ==> extended(g, plan).len() == g.len() + 1,
        extended(g, plan)[plan.last].trans.contains_key(plan.key),
        extended(g, plan)[plan.last].trans[plan.key] == g.len(),
{
    lemma_plan_facts(g, plan);
    assert(plan.chain[0] == plan.last);
    assert(plan.chain.contains(plan.last));
}

} // verus!
