//! Orders on the states of an automaton: what makes a sequence of states a
//! topological order, and the counting arguments behind the relaxation of
//! in-degrees.
use crate::sam_model::{edge, edge_ok, graph_wf, has_primary, link_ok, primary_edge, NodeView};
use crate::table::entries_agree;
use vstd::prelude::*;

verus! {

/// The sequence holds every state but the absent one, each once.
pub open spec fn covers(g: Seq<NodeView>, s: Seq<usize>) -> bool {
    &&& g.len() <= usize::MAX
    &&& s.no_duplicates()
    &&& forall|i: int| 0 <= i < s.len() ==> 1 <= (#[trigger] s[i]) < g.len()
    &&& forall|v: usize| 1 <= v < g.len() ==> #[trigger] s.contains(v)
}

/// `x` is among the first `i` states of `order`.
pub open spec fn from_prefix(order: Seq<usize>, i: int, x: usize) -> bool {
    exists|j: int| 0 <= j < i && j < order.len() && #[trigger] order[j] == x
}

/// Every transition between states of the sequence leads forward in it.
pub open spec fn topological(g: Seq<NodeView>, s: Seq<usize>) -> bool {
    forall|i: int, j: int, k: u32|
        0 <= i < s.len() && 0 <= j < s.len() && #[trigger] edge(g, s[i] as int, k, s[j] as int)
            ==> i < j
}

/// The lengths of the longest strings do not fall along the sequence.
pub open spec fn len_sorted(g: Seq<NodeView>, s: Seq<usize>) -> bool {
    forall|i: int, j: int|
        0 <= i < j < s.len() ==> g[(#[trigger] s[i]) as int].len <= g[(#[trigger] s[j]) as int].len
}

/// Every state but the root stands behind its suffix parent.
pub open spec fn parents_first(g: Seq<NodeView>, s: Seq<usize>) -> bool {
    forall|i: int, j: int|
        0 <= i < s.len() && 0 <= j < s.len() && s[j] != 1 && g[(#[trigger] s[j]) as int].link == (
        #[trigger] s[i]) ==> i < j
}

/// A sequence that holds every state once and is sorted by length is a
/// topological order that starts at the root and respects the suffix links.
pub proof fn lemma_sorted_is_topological(g: Seq<NodeView>, s: Seq<usize>)
    requires
        graph_wf(g),
        covers(g, s),
        len_sorted(g, s),
    ensures
        topological(g, s),
        parents_first(g, s),
        s.len() > 0 && s[0] == 1,
{
    assert forall|i: int, j: int, k: u32|
        0 <= i < s.len() && 0 <= j < s.len() && #[trigger] edge(
            g,
            s[i] as int,
            k,
            s[j] as int,
        ) implies i < j by {
        assert(edge_ok(g, s[i] as int, k));
        if j < i {
            assert(g[s[j] as int].len <= g[s[i] as int].len);
        }
    }
    assert forall|i: int, j: int|
        0 <= i < s.len() && 0 <= j < s.len() && s[j] != 1 && g[(#[trigger] s[j]) as int].link == (
        #[trigger] s[i]) implies i < j by {
        assert(link_ok(g, s[j] as int));
        if j < i {
            assert(g[s[j] as int].len <= g[s[i] as int].len);
        }
    }
    assert(s.contains(1usize));
    let r = choose|r: int| 0 <= r < s.len() && s[r] == 1usize;
    if r != 0 {
        let v = s[0] as int;
        assert(v != 1);
        assert(link_ok(g, v));
        assert(g[s[0] as int].len <= g[s[r] as int].len);
    }
}

/// How many pairs of `s` lead to `v`.
pub open spec fn count_to(s: Seq<(u32, usize)>, v: usize) -> nat
    decreases s.len(),
{
    if s.len() == 0 {
        0
    } else {
        count_to(s.drop_last(), v) + if s.last().1 == v {
            1nat
        } else {
            0nat
        }
    }
}

/// How many transitions lead to `v` from the states below `m` that are not
/// in `done`.
pub open spec fn pending(es: Seq<Seq<(u32, usize)>>, done: Set<int>, m: int, v: usize) -> nat
    decreases m,
{
    if m <= 0 {
        0
    } else {
        pending(es, done, m - 1, v) + if done.contains(m - 1) {
            0nat
        } else {
            count_to(es[m - 1], v)
        }
    }
}

/// Counting one pair further.
pub proof fn lemma_count_take_step(s: Seq<(u32, usize)>, i: int, v: usize)
    requires
        0 <= i < s.len(),
    ensures
        count_to(s.take(i + 1), v) == count_to(s.take(i), v) + if s[i].1 == v {
            1nat
        } else {
            0nat
        },
{
    assert(s.take(i + 1).drop_last() =~= s.take(i));
}

/// A prefix counts no more than the whole.
pub proof fn lemma_count_mono(s: Seq<(u32, usize)>, i: int, v: usize)
    requires
        0 <= i <= s.len(),
    ensures
        count_to(s.take(i), v) <= count_to(s, v),
    decreases s.len() - i,
{
    if i == s.len() {
        assert(s.take(i) =~= s);
    } else {
        lemma_count_take_step(s, i, v);
        lemma_count_mono(s, i + 1, v);
    }
}

/// A pair that leads to `v` is counted.
pub proof fn lemma_count_has(s: Seq<(u32, usize)>, i: int, v: usize)
    requires
        0 <= i < s.len(),
        s[i].1 == v,
    ensures
        count_to(s, v) >= 1,
{
    lemma_count_take_step(s, i, v);
    lemma_count_mono(s, i + 1, v);
}

/// Where the count is positive, some pair leads to `v`.
pub proof fn lemma_count_witness(s: Seq<(u32, usize)>, v: usize) -> (i: int)
    requires
        count_to(s, v) > 0,
    ensures
        0 <= i < s.len(),
        s[i].1 == v,
    decreases s.len(),
{
    if s.last().1 == v {
        s.len() - 1
    } else {
        lemma_count_witness(s.drop_last(), v)
    }
}

/// Where no two pairs lead to `v`, the count is at most one.
pub proof fn lemma_count_le_one(s: Seq<(u32, usize)>, v: usize)
    requires
        forall|i: int, j: int| 0 <= i < j < s.len() ==> !((#[trigger] s[i]).1 == v && (#[trigger] s[j]).1 == v),
    ensures
        count_to(s, v) <= 1,
    decreases s.len(),
{
    if s.len() > 0 {
        let t = s.drop_last();
        assert forall|i: int, j: int| 0 <= i < j < t.len() implies !((#[trigger] t[i]).1 == v && (
        #[trigger] t[j]).1 == v) by {
            assert(t[i] == s[i] && t[j] == s[j]);
        }
        lemma_count_le_one(t, v);
        if s.last().1 == v && count_to(t, v) > 0 {
            let i = lemma_count_witness(t, v);
            assert(t[i] == s[i]);
            assert(s[s.len() - 1] == s.last());
        }
    }
}

/// The transitions of one state of a sound automaton lead to `v` at most
/// once.
pub proof fn lemma_entries_count_le_one(g: Seq<NodeView>, u: int, s: Seq<(u32, usize)>, v: usize)
    requires
        graph_wf(g),
        0 <= u < g.len(),
        entries_agree(s, g[u].trans),
    ensures
        count_to(s, v) <= 1,
{
    assert forall|i: int, j: int| 0 <= i < j < s.len() implies !((#[trigger] s[i]).1 == v && (
    #[trigger] s[j]).1 == v) by {
        if s[i].1 == v && s[j].1 == v {
            assert(g[u].trans.contains_key(s[i].0));
            assert(g[u].trans.contains_key(s[j].0));
            assert(crate::sam_model::preds_apart(g, u, s[i].0, u, s[j].0));
        }
    }
    lemma_count_le_one(s, v);
}

/// Where every state leads to `v` at most once, at most `m` transitions are
/// pending.
pub proof fn lemma_pending_bound(es: Seq<Seq<(u32, usize)>>, done: Set<int>, m: int, v: usize)
    requires
        0 <= m <= es.len(),
        forall|u: int| 0 <= u < m ==> count_to(#[trigger] es[u], v) <= 1,
    ensures
        pending(es, done, m, v) <= m,
    decreases m,
{
    if m > 0 {
        lemma_pending_bound(es, done, m - 1, v);
    }
}

/// The transitions of a state that is not done are pending.
pub proof fn lemma_pending_ge(es: Seq<Seq<(u32, usize)>>, done: Set<int>, m: int, u: int, v: usize)
    requires
        0 <= u < m,
        !done.contains(u),
    ensures
        pending(es, done, m, v) >= count_to(es[u], v),
    decreases m,
{
    if u < m - 1 {
        lemma_pending_ge(es, done, m - 1, u, v);
    }
}

/// Where transitions are pending, some state that is not done leads to `v`.
pub proof fn lemma_pending_witness(es: Seq<Seq<(u32, usize)>>, done: Set<int>, m: int, v: usize) -> (u:
    int)
    requires
        pending(es, done, m, v) > 0,
    ensures
        0 <= u < m,
        !done.contains(u),
        count_to(es[u], v) > 0,
    decreases m,
{
    if !done.contains(m - 1) && count_to(es[m - 1], v) > 0 {
        m - 1
    } else {
        lemma_pending_witness(es, done, m - 1, v)
    }
}

/// Marking a state as done takes its transitions off the pending ones.
pub proof fn lemma_pending_insert(es: Seq<Seq<(u32, usize)>>, done: Set<int>, m: int, c: int, v: usize)
    requires
        !done.contains(c),
        0 <= c,
    ensures
        pending(es, done.insert(c), m, v) + (if c < m {
            count_to(es[c], v)
        } else {
            0nat
        }) == pending(es, done, m, v),
    decreases m,
{
    if m > 0 {
        lemma_pending_insert(es, done, m - 1, c, v);
    }
}

/// A sequence of distinct numbers below `n` has at most `n` members.
pub proof fn lemma_distinct_bounded(s: Seq<usize>, n: nat)
    requires
        s.no_duplicates(),
        forall|i: int| 0 <= i < s.len() ==> (#[trigger] s[i]) < n,
    ensures
        s.len() <= n,
    decreases n,
{
    if n == 0 {
        if s.len() > 0 {
            assert(s[0] < n);
        }
    } else {
        let top = (n - 1) as usize;
        if s.contains(top) {
            let i = choose|i: int| 0 <= i < s.len() && s[i] == top;
            let t = s.remove(i);
            assert forall|a: int, b: int| 0 <= a < t.len() && 0 <= b < t.len() && a != b implies t[a]
                != t[b] by {
                let a2 = if a < i {
                    a
                } else {
                    a + 1
                };
                let b2 = if b < i {
                    b
                } else {
                    b + 1
                };
                assert(t[a] == s[a2] && t[b] == s[b2]);
            }
            assert forall|a: int| 0 <= a < t.len() implies (#[trigger] t[a]) < (n - 1) as nat by {
                let a2 = if a < i {
                    a
                } else {
                    a + 1
                };
                assert(t[a] == s[a2]);
                assert(s[a2] < n);
                assert(s[a2] != s[i]);
            }
            lemma_distinct_bounded(t, (n - 1) as nat);
        } else {
            assert forall|a: int| 0 <= a < s.len() implies (#[trigger] s[a]) < (n - 1) as nat by {
                assert(s[a] < n);
                assert(s.contains(s[a]));
            }
            lemma_distinct_bounded(s, (n - 1) as nat);
        }
    }
}

/// The states among the first `head` of `order`.
pub open spec fn prefix_set(order: Seq<usize>, head: int) -> Set<int> {
    Set::new(|x: int| exists|i: int| 0 <= i < head && i < order.len() && (#[trigger] order[i]) == x)
}

/// Every state before which `order` stands at position `j` is among the
/// first `head` states and stands before it.
pub open spec fn preds_before(g: Seq<NodeView>, order: Seq<usize>, head: int) -> bool {
    forall|j: int, u: int, k: u32|
        1 <= j < order.len() && #[trigger] edge(g, u, k, order[j] as int) ==> exists|i: int|
            0 <= i < j && i < head && (#[trigger] order[i]) == u
}

/// What holds of the relaxation whatever its progress: the entries describe
/// the transitions, and `order` starts at the root and holds proper states,
/// each once.
pub open spec fn relax_frame(
    g: Seq<NodeView>,
    es: Seq<Seq<(u32, usize)>>,
    order: Seq<usize>,
    deg: Seq<usize>,
) -> bool {
    &&& g.len() <= usize::MAX
    &&& es.len() == g.len()
    &&& deg.len() == g.len()
    &&& forall|u: int| 0 <= u < g.len() ==> entries_agree(#[trigger] es[u], g[u].trans)
    &&& order.len() >= 1
    &&& order[0] == 1
    &&& forall|i: int| 0 <= i < order.len() ==> 1 <= (#[trigger] order[i]) < g.len()
    &&& order.no_duplicates()
    &&& forall|v: int|
        2 <= v < g.len() ==> (order.contains(v as usize) <==> (#[trigger] deg[v]) == 0)
}

/// The state of the relaxation between two states of `order`: the first
/// `head` are done, and every counter holds the transitions that are pending.
pub open spec fn relax_inv(
    g: Seq<NodeView>,
    es: Seq<Seq<(u32, usize)>>,
    order: Seq<usize>,
    head: int,
    deg: Seq<usize>,
) -> bool {
    &&& relax_frame(g, es, order, deg)
    &&& 0 <= head <= order.len()
    &&& forall|v: int|
        0 <= v < g.len() ==> (#[trigger] deg[v]) == pending(
            es,
            prefix_set(order, head),
            g.len() as int,
            v as usize,
        )
    &&& preds_before(g, order, head)
}

/// The state of the relaxation within the state at position `head - 1`, of
/// whose transitions the first `i` are relaxed.
pub open spec fn relax_mid(
    g: Seq<NodeView>,
    es: Seq<Seq<(u32, usize)>>,
    order: Seq<usize>,
    head: int,
    deg: Seq<usize>,
    i: int,
) -> bool {
    &&& relax_frame(g, es, order, deg)
    &&& 1 <= head <= order.len()
    &&& 0 <= i <= es[order[head - 1] as int].len()
    &&& forall|v: int|
        0 <= v < g.len() ==> (#[trigger] deg[v]) + count_to(
            es[order[head - 1] as int].take(i),
            v as usize,
        ) == pending(es, prefix_set(order, head - 1), g.len() as int, v as usize)
    &&& preds_before(g, order, head)
}

/// A transition that the model has is listed among the entries.
pub proof fn lemma_edge_counted(g: Seq<NodeView>, es: Seq<Seq<(u32, usize)>>, u: int, k: u32, v: int)
    requires
        es.len() == g.len(),
        0 <= u < g.len(),
        0 <= v <= usize::MAX,
        entries_agree(es[u], g[u].trans),
        edge(g, u, k, v),
    ensures
        count_to(es[u], v as usize) >= 1,
{
    let i = choose|i: int| 0 <= i < es[u].len() && (#[trigger] es[u][i]).0 == k;
    lemma_count_has(es[u], i, v as usize);
}

/// The relaxation starts soundly from the in-degrees and the root.
pub proof fn lemma_relax_init(g: Seq<NodeView>, es: Seq<Seq<(u32, usize)>>, deg: Seq<usize>)
    requires
        graph_wf(g),
        g.len() <= usize::MAX,
        es.len() == g.len(),
        deg.len() == g.len(),
        forall|u: int| 0 <= u < g.len() ==> entries_agree(#[trigger] es[u], g[u].trans),
        forall|v: int|
            0 <= v < g.len() ==> (#[trigger] deg[v]) == pending(
                es,
                Set::<int>::empty(),
                g.len() as int,
                v as usize,
            ),
    ensures
        relax_inv(g, es, seq![1usize], 0, deg),
{
    let order = seq![1usize];
    assert(prefix_set(order, 0) =~= Set::<int>::empty());
    assert forall|v: int| 2 <= v < g.len() implies (order.contains(v as usize) <==> (#[trigger] deg[v])
        == 0) by {
        assert(has_primary(g, v));
        let (u, k) = choose|u: int, k: u32| #[trigger] primary_edge(g, u, k, v);
        lemma_edge_counted(g, es, u, k, v);
        lemma_pending_ge(es, Set::<int>::empty(), g.len() as int, u, v as usize);
        if order.contains(v as usize) {
            let i = choose|i: int| 0 <= i < order.len() && order[i] == v as usize;
        }
    }
}

/// Taking up the next state of `order`.
pub proof fn lemma_relax_enter(
    g: Seq<NodeView>,
    es: Seq<Seq<(u32, usize)>>,
    order: Seq<usize>,
    head: int,
    deg: Seq<usize>,
)
    requires
        relax_inv(g, es, order, head, deg),
        head < order.len(),
    ensures
        relax_mid(g, es, order, head + 1, deg, 0),
{
    let cur = order[head] as int;
    assert(es[cur].take(0) =~= Seq::<(u32, usize)>::empty());
    assert forall|j: int, u: int, k: u32|
        1 <= j < order.len() && #[trigger] edge(g, u, k, order[j] as int) implies exists|i: int|
        0 <= i < j && i < head + 1 && (#[trigger] order[i]) == u by {
        let i = choose|i: int| 0 <= i < j && i < head && (#[trigger] order[i]) == u;
        assert(0 <= i < j && i < head + 1 && order[i] == u);
    }
}

/// Leaving a state of `order` whose transitions are all relaxed.
pub proof fn lemma_relax_leave(
    g: Seq<NodeView>,
    es: Seq<Seq<(u32, usize)>>,
    order: Seq<usize>,
    head: int,
    deg: Seq<usize>,
)
    requires
        relax_mid(g, es, order, head, deg, es[order[head - 1] as int].len() as int),
    ensures
        relax_inv(g, es, order, head, deg),
{
    let c = head - 1;
    let cur = order[c] as int;
    let d = prefix_set(order, c);
    assert(es[cur].take(es[cur].len() as int) =~= es[cur]);
    assert(!d.contains(cur)) by {
        if d.contains(cur) {
            let i = choose|i: int| 0 <= i < c && i < order.len() && (#[trigger] order[i]) == cur;
            assert(order[i] == order[c]);
        }
    }
    assert(prefix_set(order, head) =~= d.insert(cur)) by {
        assert forall|x: int| prefix_set(order, head).contains(x) <==> d.insert(cur).contains(x) by {
            if prefix_set(order, head).contains(x) {
                let i = choose|i: int| 0 <= i < head && i < order.len() && (#[trigger] order[i]) == x;
                if i < c {
                    assert(d.contains(x));
                }
            }
            if d.insert(cur).contains(x) {
                if x == cur {
                    assert(order[c] == x);
                } else {
                    let i = choose|i: int| 0 <= i < c && i < order.len() && (#[trigger] order[i]) == x;
                    assert(0 <= i < head && order[i] == x);
                }
            }
        }
    }
    assert forall|v: int| 0 <= v < g.len() implies (#[trigger] deg[v]) == pending(
        es,
        prefix_set(order, head),
        g.len() as int,
        v as usize,
    ) by {
        lemma_pending_insert(es, d, g.len() as int, cur, v as usize);
    }
}

/// Relaxing one transition: its target has a positive counter, and after
/// the counter is lowered, and the target appended where it reached zero,
/// the relaxation stands one transition further.
pub proof fn lemma_relax_step(
    g: Seq<NodeView>,
    es: Seq<Seq<(u32, usize)>>,
    order: Seq<usize>,
    head: int,
    deg: Seq<usize>,
    i: int,
)
    requires
        graph_wf(g),
        relax_mid(g, es, order, head, deg, i),
        i < es[order[head - 1] as int].len(),
    ensures
        ({
            let v = es[order[head - 1] as int][i].1;
            let deg2 = deg.update(v as int, (deg[v as int] - 1) as usize);
            let order2 = if deg[v as int] == 1 {
                order.push(v)
            } else {
                order
            };
            &&& 2 <= v < g.len()
            &&& deg[v as int] >= 1
            &&& relax_mid(g, es, order2, head, deg2, i + 1)
        }),
{
    let n = g.len() as int;
    let c = head - 1;
    let cur = order[c] as int;
    let k = es[cur][i].0;
    let v = es[cur][i].1;
    let vi = v as int;
    let d = prefix_set(order, c);
    assert(g[cur].trans.contains_key(k) && g[cur].trans[k] == v);
    assert(edge_ok(g, cur, k));
    assert(!d.contains(cur)) by {
        if d.contains(cur) {
            let a = choose|a: int| 0 <= a < c && a < order.len() && (#[trigger] order[a]) == cur;
            assert(order[a] == order[c]);
        }
    }
    lemma_pending_ge(es, d, n, cur, v);
    lemma_count_mono(es[cur], i + 1, v);
    lemma_count_take_step(es[cur], i, v);
    assert(deg[vi] + count_to(es[cur].take(i), v) == pending(es, d, n, v));
    assert(deg[vi] >= 1);
    let deg2 = deg.update(vi, (deg[vi] - 1) as usize);
    let order2 = if deg[vi] == 1 {
        order.push(v)
    } else {
        order
    };
    assert(!order.contains(v));
    assert(order2[c] == order[c]);
    assert(prefix_set(order2, c) =~= d) by {
        assert forall|x: int| prefix_set(order2, c).contains(x) <==> d.contains(x) by {
            if prefix_set(order2, c).contains(x) {
                let a = choose|a: int| 0 <= a < c && a < order2.len() && (#[trigger] order2[a]) == x;
                assert(order[a] == x);
            }
            if d.contains(x) {
                let a = choose|a: int| 0 <= a < c && a < order.len() && (#[trigger] order[a]) == x;
                assert(order2[a] == x);
            }
        }
    }
    assert forall|w: int| 0 <= w < n implies (#[trigger] deg2[w]) + count_to(
        es[cur].take(i + 1),
        w as usize,
    ) == pending(es, d, n, w as usize) by {
        lemma_count_take_step(es[cur], i, w as usize);
        assert(deg[w] + count_to(es[cur].take(i), w as usize) == pending(es, d, n, w as usize));
    }
    assert(order2.no_duplicates()) by {
        if deg[vi] == 1 {
            assert forall|a: int, b: int| 0 <= a < order2.len() && 0 <= b < order2.len() && a != b implies order2[a]
                != order2[b] by {
                if a < order.len() && b < order.len() {
                    assert(order[a] != order[b]);
                } else if a < order.len() {
                    assert(order.contains(order[a]));
                } else {
                    assert(order.contains(order[b]));
                }
            }
        }
    }
    assert forall|w: int| 2 <= w < n implies (order2.contains(w as usize) <==> (#[trigger] deg2[w])
        == 0) by {
        assert(order.contains(w as usize) <==> deg[w] == 0);
        if order2.contains(w as usize) {
            let a = choose|a: int| 0 <= a < order2.len() && order2[a] == w as usize;
            if a < order.len() {
                assert(order[a] == w as usize);
                assert(order.contains(w as usize));
            }
        }
        if order.contains(w as usize) {
            let a = choose|a: int| 0 <= a < order.len() && order[a] == w as usize;
            assert(order2[a] == w as usize);
        }
        if w == vi && deg[vi] == 1 {
            assert(order2[order.len() as int] == v);
        }
    }
    assert forall|j: int, u: int, k2: u32|
        1 <= j < order2.len() && #[trigger] edge(g, u, k2, order2[j] as int) implies exists|a: int|
        0 <= a < j && a < head && (#[trigger] order2[a]) == u by {
        if j < order.len() {
            assert(order2[j] == order[j]);
            assert(edge(g, u, k2, order[j] as int));
            let a = choose|a: int| 0 <= a < j && a < head && (#[trigger] order[a]) == u;
            assert(order2[a] == u);
        } else {
            assert(order2[j] == v);
            let d2 = d.insert(cur);
            lemma_pending_insert(es, d, n, cur, v);
            if !d2.contains(u) {
                lemma_edge_counted(g, es, u, k2, vi);
                lemma_pending_ge(es, d2, n, u, v);
                assert(false);
            }
            if u == cur {
                assert(order2[c] == u);
            } else {
                let a = choose|a: int| 0 <= a < c && a < order.len() && (#[trigger] order[a]) == u;
                assert(order2[a] == u);
            }
        }
    }
    assert forall|a: int| 0 <= a < order2.len() implies 1 <= (#[trigger] order2[a]) < g.len() by {
        if a < order.len() {
            assert(order2[a] == order[a]);
        }
    }
}

/// Once every state of `order` is done, every proper state is in it, so the
/// relaxation ends with a full topological order.
pub proof fn lemma_relax_reaches(
    g: Seq<NodeView>,
    es: Seq<Seq<(u32, usize)>>,
    order: Seq<usize>,
    deg: Seq<usize>,
    v: int,
)
    requires
        graph_wf(g),
        relax_inv(g, es, order, order.len() as int, deg),
        1 <= v < g.len(),
    ensures
        order.contains(v as usize),
    decreases g[v].len,
{
    if v == 1 {
        assert(order[0] == 1usize);
    } else if !order.contains(v as usize) {
        let d = prefix_set(order, order.len() as int);
        assert(deg[v] != 0);
        let u = lemma_pending_witness(es, d, g.len() as int, v as usize);
        let idx = lemma_count_witness(es[u], v as usize);
        let k = es[u][idx].0;
        assert(g[u].trans.contains_key(k) && g[u].trans[k] == v);
        assert(edge_ok(g, u, k));
        assert(u != 0) by {
            assert(g[0].trans =~= Map::<u32, usize>::empty());
        }
        lemma_relax_reaches(g, es, order, deg, u);
        let a = choose|a: int| 0 <= a < order.len() && order[a] == u as usize;
        assert(d.contains(u));
    }
}

/// The order that the relaxation ends with is a full topological order.
pub proof fn lemma_relax_done(
    g: Seq<NodeView>,
    es: Seq<Seq<(u32, usize)>>,
    order: Seq<usize>,
    deg: Seq<usize>,
)
    requires
        graph_wf(g),
        relax_inv(g, es, order, order.len() as int, deg),
    ensures
        covers(g, order),
        topological(g, order),
        order[0] == 1,
{
    assert forall|v: usize| 1 <= v < g.len() implies #[trigger] order.contains(v) by {
        lemma_relax_reaches(g, es, order, deg, v as int);
    }
    assert(g.len() <= usize::MAX);
    assert forall|i: int, j: int, k: u32|
        0 <= i < order.len() && 0 <= j < order.len() && #[trigger] edge(
            g,
            order[i] as int,
            k,
            order[j] as int,
        ) implies i < j by {
        assert(edge_ok(g, order[i] as int, k));
        assert(j != 0);
        let a = choose|a: int| 0 <= a < j && a < order.len() && (#[trigger] order[a]) == order[i] as int;
        if a != i {
            assert(order[a] != order[i]);
        }
    }
}

/// `d` lies in the tree of suffix links at or below `a`.
pub open spec fn link_reaches(g: Seq<NodeView>, d: int, a: int) -> bool
    decreases g[d].len,
{
    d == a || (2 <= d < g.len() && link_ok(g, d) && link_reaches(g, g[d].link as int, a))
}

/// Some state at or below `v` in the tree of suffix links is marked.
pub open spec fn marked_below(g: Seq<NodeView>, v: int) -> bool {
    exists|d: int| 1 <= d < g.len() && #[trigger] link_reaches(g, d, v) && g[d].accept
}

/// The children of `v` in the tree of suffix links among the states of `s`
/// from position `from` on hand a mark up to `v`.
pub open spec fn child_marked(g: Seq<NodeView>, s: Seq<usize>, from: int, v: int) -> bool {
    exists|j: int|
        from <= j < s.len() && 0 <= j && (#[trigger] s[j]) >= 2 && g[s[j] as int].link == v
            && marked_below(g, s[j] as int)
}

/// What lies below a child of `v` lies below `v`.
pub proof fn lemma_reaches_up(g: Seq<NodeView>, d: int, c: int)
    requires
        graph_wf(g),
        2 <= c < g.len(),
        1 <= d < g.len(),
        link_reaches(g, d, c),
    ensures
        link_reaches(g, d, g[c].link as int),
    decreases g[d].len,
{
    assert(link_ok(g, c));
    let a = g[c].link as int;
    assert(link_reaches(g, a, a));
    if d != c {
        assert(link_ok(g, d));
        lemma_reaches_up(g, g[d].link as int, c);
    }
}

/// What lies properly below `v` lies at or below a child of `v`.
pub proof fn lemma_reaches_child(g: Seq<NodeView>, d: int, v: int) -> (c: int)
    requires
        graph_wf(g),
        1 <= d < g.len(),
        link_reaches(g, d, v),
        d != v,
    ensures
        2 <= c < g.len(),
        g[c].link == v,
        link_reaches(g, d, c),
    decreases g[d].len,
{
    assert(link_ok(g, d));
    if g[d].link == v {
        d
    } else {
        lemma_reaches_child(g, g[d].link as int, v)
    }
}

/// A mark lies at or below `v` exactly when `v` is marked or a mark lies at
/// or below one of its children, all of which stand behind `v` in a sequence
/// that is sorted by length.
pub proof fn lemma_marked_unfold(g: Seq<NodeView>, s: Seq<usize>, i: int)
    requires
        graph_wf(g),
        covers(g, s),
        len_sorted(g, s),
        0 <= i < s.len(),
    ensures
        marked_below(g, s[i] as int) <==> (g[s[i] as int].accept || child_marked(
            g,
            s,
            i + 1,
            s[i] as int,
        )),
{
    let v = s[i] as int;
    if marked_below(g, v) {
        let d = choose|d: int| 1 <= d < g.len() && #[trigger] link_reaches(g, d, v) && g[d].accept;
        if d != v {
            let c = lemma_reaches_child(g, d, v);
            assert(link_reaches(g, d, c));
            assert(marked_below(g, c));
            assert(s.contains(c as usize));
            let j = choose|j: int| 0 <= j < s.len() && s[j] == c as usize;
            assert(link_ok(g, c));
            if j <= i {
                if j < i {
                    assert(g[s[j] as int].len <= g[s[i] as int].len);
                }
                assert(false);
            }
            assert(child_marked(g, s, i + 1, v));
        }
    }
    if g[v].accept {
        assert(link_reaches(g, v, v));
    }
    if child_marked(g, s, i + 1, v) {
        let j = choose|j: int|
            i + 1 <= j < s.len() && 0 <= j && (#[trigger] s[j]) >= 2 && g[s[j] as int].link == v
                && marked_below(g, s[j] as int);
        let c = s[j] as int;
        let d = choose|d: int| 1 <= d < g.len() && #[trigger] link_reaches(g, d, c) && g[d].accept;
        lemma_reaches_up(g, d, c);
    }
}

/// With every state handled, the marks that were handed up to `v` are the
/// marks at or below it.
pub proof fn lemma_marked_all(g: Seq<NodeView>, s: Seq<usize>, v: int)
    requires
        graph_wf(g),
        covers(g, s),
        len_sorted(g, s),
        1 <= v < g.len(),
    ensures
        marked_below(g, v) <==> (g[v].accept || child_marked(g, s, 0, v)),
{
    assert(s.contains(v as usize));
    let i = choose|i: int| 0 <= i < s.len() && s[i] == v as usize;
    lemma_marked_unfold(g, s, i);
    if child_marked(g, s, 0, v) {
        let j = choose|j: int|
            0 <= j < s.len() && 0 <= j && (#[trigger] s[j]) >= 2 && g[s[j] as int].link == v
                && marked_below(g, s[j] as int);
        assert(link_ok(g, s[j] as int));
        if j <= i {
            if j < i {
                assert(g[s[j] as int].len <= g[s[i] as int].len);
            }
            assert(false);
        }
        assert(child_marked(g, s, i + 1, v));
    }
    if child_marked(g, s, i + 1, v) {
        let j = choose|j: int|
            i + 1 <= j < s.len() && 0 <= j && (#[trigger] s[j]) >= 2 && g[s[j] as int].link == v
                && marked_below(g, s[j] as int);
        assert(child_marked(g, s, 0, v));
    }
}

} // verus!
