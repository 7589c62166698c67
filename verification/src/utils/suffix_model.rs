//! What the data on the states of an automaton is: for every state and every
//! length of a string of that state one entry, given for that state and
//! length or else handed on from the state that the string without its last
//! symbol belongs to.
use crate::sam_model::{
    edge, edge_ok, graph_wf, has_primary, link_ok, lo, preds_apart, primary_edge, suffix_step_ok,
    NodeView,
};
use crate::sam_order::{covers, len_sorted, prefix_set};
use vstd::prelude::*;

verus! {

/// The entry that the list `o` gives for the length `l`: that of the last
/// pair with this length.
pub open spec fn override_at<Inner>(o: Seq<(usize, Inner)>, l: int) -> Option<Inner>
    decreases o.len(),
{
    if o.len() == 0 {
        None
    } else if o.last().0 == l {
        Some(o.last().1)
    } else {
        override_at(o.drop_last(), l)
    }
}

/// `u` leads to `v` and one of its strings has the length `l - 1`.
pub open spec fn carries(g: Seq<NodeView>, u: int, v: int, l: int) -> bool {
    &&& exists|k: u32| #[trigger] edge(g, u, k, v)
    &&& lo(g, u) < l - 1 <= g[u].len
}

/// The state that the string of length `l` of `v` belongs to once its last
/// symbol is taken off.
pub open spec fn carrier(g: Seq<NodeView>, v: int, l: int) -> int {
    choose|u: int| #[trigger] carries(g, u, v, l)
}

/// The entry of the string of length `l` of the state `v`: the root's entry
/// for the root, else what `ov` gives for `v` and `l`, else the entry of the
/// string without its last symbol.
pub open spec fn suffix_entry<Inner>(
    g: Seq<NodeView>,
    ov: Seq<Seq<(usize, Inner)>>,
    d0: Inner,
    v: int,
    l: int,
) -> Inner
    decreases l,
{
    if v == 1 || l <= 0 {
        d0
    } else {
        match override_at(ov[v], l) {
            Some(d) => d,
            None => suffix_entry(g, ov, d0, carrier(g, v, l), l - 1),
        }
    }
}

/// The entries of the state `v`, from its shortest string to its longest.
pub open spec fn final_seq<Inner>(
    g: Seq<NodeView>,
    ov: Seq<Seq<(usize, Inner)>>,
    d0: Inner,
    v: int,
) -> Seq<Inner> {
    Seq::new((g[v].len - lo(g, v)) as nat, |k: int| suffix_entry(g, ov, d0, v, lo(g, v) + 1 + k))
}

/// The entries that `v` has from the states that lead to it, for its
/// strings up to the length `upto`.
pub open spec fn inherited_seq<Inner>(
    g: Seq<NodeView>,
    ov: Seq<Seq<(usize, Inner)>>,
    d0: Inner,
    v: int,
    upto: int,
) -> Seq<Inner> {
    Seq::new(
        (upto - lo(g, v)) as nat,
        |k: int| suffix_entry(g, ov, d0, carrier(g, v, lo(g, v) + 1 + k), lo(g, v) + k),
    )
}

/// The interval of a proper state is not empty, and that of its suffix
/// parent ends where it begins.
pub proof fn lemma_interval(g: Seq<NodeView>, v: int)
    requires
        graph_wf(g),
        1 <= v < g.len(),
    ensures
        -1 <= lo(g, v) < g[v].len,
        v >= 2 ==> 0 <= lo(g, v),
{
    if v != 1 {
        assert(link_ok(g, v));
    }
}

/// A state that carries a length for `v` is the only one that does.
pub proof fn lemma_carrier(g: Seq<NodeView>, x: int, k: u32, v: int, l: int)
    requires
        graph_wf(g),
        edge(g, x, k, v),
        lo(g, x) < l - 1 <= g[x].len,
    ensures
        carrier(g, v, l) == x,
{
    assert(carries(g, x, v, l));
    let u = carrier(g, v, l);
    assert(carries(g, u, v, l));
    let k2 = choose|k2: u32| #[trigger] edge(g, u, k2, v);
    assert(preds_apart(g, x, k, u, k2));
}

/// The lowest state that leads to `v`: its interval, moved by one, begins
/// where that of `v` begins.
pub open spec fn lowest_pred(g: Seq<NodeView>, x: int, v: int) -> bool {
    lo(g, x) + 1 == lo(g, v)
}

/// A state that leads to `v` is the lowest one that does, or its suffix
/// parent leads to `v` on the same symbol.
pub proof fn lemma_pred_cases(g: Seq<NodeView>, x: int, k: u32, v: int)
    requires
        graph_wf(g),
        edge(g, x, k, v),
    ensures
        1 <= x < g.len(),
        2 <= v < g.len(),
        g[x].len + 1 <= g[v].len,
        lowest_pred(g, x, v) || (x >= 2 && edge(g, g[x].link as int, k, v) && lo(g, x)
            == g[g[x].link as int].len),
{
    assert(edge_ok(g, x, k));
    assert(suffix_step_ok(g, x, k));
    assert(x != 0) by {
        assert(g[0].trans =~= Map::<u32, usize>::empty());
    }
    assert(link_ok(g, v));
    if x >= 2 {
        assert(link_ok(g, x));
    }
}

/// Every other state that leads to `v` is longer than the lowest one.
pub proof fn lemma_lowest_first(g: Seq<NodeView>, x: int, k: u32, v: int, u: int, k2: u32)
    requires
        graph_wf(g),
        edge(g, x, k, v),
        edge(g, u, k2, v),
        lowest_pred(g, x, v),
        u != x,
    ensures
        g[u].len > g[x].len,
{
    assert(preds_apart(g, x, k, u, k2));
    assert(edge_ok(g, u, k2));
    lemma_pred_cases(g, u, k2, v);
    lemma_interval(g, u);
    lemma_interval(g, x);
}

/// Between a state that leads to `v` and its suffix parent, where that one
/// leads to `v` too, no other state that leads to `v` lies.
pub proof fn lemma_next_pred(g: Seq<NodeView>, x: int, k: u32, v: int, u: int, k2: u32)
    requires
        graph_wf(g),
        edge(g, x, k, v),
        x >= 2,
        edge(g, g[x].link as int, k, v),
        edge(g, u, k2, v),
        u != x,
    ensures
        g[u].len <= g[g[x].link as int].len || g[u].len > g[x].len,
{
    assert(preds_apart(g, x, k, u, k2));
    lemma_pred_cases(g, u, k2, v);
    lemma_interval(g, u);
    lemma_interval(g, x);
    assert(link_ok(g, x));
}

/// The longest state that leads to `v` is one shorter than `v`.
pub proof fn lemma_top_pred(g: Seq<NodeView>, v: int) -> (r: (int, u32))
    requires
        graph_wf(g),
        2 <= v < g.len(),
    ensures
        edge(g, r.0, r.1, v),
        g[r.0].len + 1 == g[v].len,
{
    assert(has_primary(g, v));
    choose|u: int, k: u32| #[trigger] primary_edge(g, u, k, v)
}

/// What a list of pairs gives for a length once one more pair counts.
pub proof fn lemma_override_step<Inner>(o: Seq<(usize, Inner)>, j: int, l: int)
    requires
        0 <= j < o.len(),
    ensures
        override_at(o.take(j + 1), l) == (if o[j].0 == l {
            Some(o[j].1)
        } else {
            override_at(o.take(j), l)
        }),
{
    assert(o.take(j + 1).drop_last() =~= o.take(j));
    assert(o.take(j + 1).last() == o[j]);
}

/// Where the entries that `w` has so far end: at the longest string of the
/// state `t` that was handed on last, moved by one, or nowhere yet.
pub open spec fn top_end(g: Seq<NodeView>, w: int, t: int) -> int {
    if t == 0 {
        lo(g, w)
    } else {
        g[t].len as int + 1
    }
}

/// The state `w` waits for its turn with the entries of the states that
/// were handed on to it, up to the state `top[w]`.
pub open spec fn waiting_ok<Inner>(
    g: Seq<NodeView>,
    ov: Seq<Seq<(usize, Inner)>>,
    d0: Inner,
    done: Set<int>,
    top: Seq<int>,
    seqs: Seq<Seq<Inner>>,
    w: int,
) -> bool {
    &&& 0 <= top[w] < g.len()
    &&& seqs[w] == inherited_seq(g, ov, d0, w, top_end(g, w, top[w]))
    &&& top[w] != 0 ==> done.contains(top[w]) && exists|k: u32| #[trigger] edge(g, top[w], k, w)
}

/// The transition of `u` on `k` has been handed on: `u` is done, and where
/// it is the state `x` that is at its turn, the transition is among the
/// entries `ex` that were walked.
pub open spec fn relaxed(done: Set<int>, x: int, ex: Seq<(u32, usize)>, u: int, k: u32) -> bool {
    done.contains(u) && (u == x ==> exists|idx: int| 0 <= idx < ex.len() && (#[trigger] ex[idx]).0 == k)
}

/// Every transition into `w` that has been handed on comes from a state that
/// is no longer than `top[w]`.
pub open spec fn covered(
    g: Seq<NodeView>,
    done: Set<int>,
    x: int,
    ex: Seq<(u32, usize)>,
    top: Seq<int>,
    w: int,
) -> bool {
    forall|u: int, k: u32| #[trigger]
        edge(g, u, k, w) && relaxed(done, x, ex, u, k) ==> top[w] != 0 && g[u].len <= g[top[w]].len
}

/// In a sequence that holds every state once and is sorted by length, the
/// states before a position are no longer than the state at it, and every
/// shorter state stands before it.
pub proof fn lemma_sorted_prefix(g: Seq<NodeView>, s: Seq<usize>, i: int, v: int)
    requires
        graph_wf(g),
        covers(g, s),
        len_sorted(g, s),
        0 <= i < s.len(),
        1 <= v < g.len(),
    ensures
        prefix_set(s, i).contains(v) ==> g[v].len <= g[s[i] as int].len && v != s[i],
        g[v].len < g[s[i] as int].len ==> prefix_set(s, i).contains(v),
{
    if prefix_set(s, i).contains(v) {
        let j = choose|j: int| 0 <= j < i && j < s.len() && (#[trigger] s[j]) == v;
        assert(g[s[j] as int].len <= g[s[i] as int].len);
        assert(s[j] != s[i]);
    }
    if g[v].len < g[s[i] as int].len {
        assert(s.contains(v as usize));
        let j = choose|j: int| 0 <= j < s.len() && s[j] == v as usize;
        if j > i {
            assert(g[s[i] as int].len <= g[s[j] as int].len);
        }
        assert(s[j] == v);
    }
}

/// Handing the entries of `x` on to `w` behind the entries that end where
/// those of `x` begin gives the entries of `w` up to the longest string of
/// `x`, moved by one.
pub proof fn lemma_merge_step<Inner>(
    g: Seq<NodeView>,
    ov: Seq<Seq<(usize, Inner)>>,
    d0: Inner,
    x: int,
    k: u32,
    w: int,
    t: int,
)
    requires
        graph_wf(g),
        edge(g, x, k, w),
        t == lo(g, x) + 1,
    ensures
        lo(g, w) <= t <= g[x].len + 1,
        g[x].len + 1 <= g[w].len,
        inherited_seq(g, ov, d0, w, t) + final_seq(g, ov, d0, x) == inherited_seq(
            g,
            ov,
            d0,
            w,
            g[x].len as int + 1,
        ),
        (inherited_seq(g, ov, d0, w, t) + final_seq(g, ov, d0, x)).len() == g[x].len + 1 - lo(g, w),
{
    lemma_pred_cases(g, x, k, w);
    lemma_interval(g, x);
    lemma_interval(g, w);
    assert(edge_ok(g, x, k));
    let a = inherited_seq(g, ov, d0, w, t);
    let b = final_seq(g, ov, d0, x);
    let c = inherited_seq(g, ov, d0, w, g[x].len as int + 1);
    assert(a.len() + b.len() == c.len());
    assert forall|i: int| 0 <= i < c.len() implies (a + b)[i] == c[i] by {
        if i >= a.len() {
            let j = i - a.len();
            let l = lo(g, w) + 1 + i;
            assert(l - 1 == lo(g, x) + 1 + j);
            lemma_carrier(g, x, k, w, l);
        }
    }
    assert(a + b =~= c);
}

/// The entries that were handed on to a state up to its longest string,
/// with what is given for the state itself put over them, are its entries.
pub proof fn lemma_overrides_done<Inner>(
    g: Seq<NodeView>,
    ov: Seq<Seq<(usize, Inner)>>,
    d0: Inner,
    x: int,
    cur: Seq<Inner>,
)
    requires
        graph_wf(g),
        2 <= x < g.len(),
        cur.len() == g[x].len - lo(g, x),
        forall|i: int|
            0 <= i < cur.len() ==> (#[trigger] cur[i]) == (match override_at(
                ov[x],
                lo(g, x) + 1 + i,
            ) {
                Some(d) => d,
                None => inherited_seq(g, ov, d0, x, g[x].len as int)[i],
            }),
    ensures
        cur == final_seq(g, ov, d0, x),
{
    lemma_interval(g, x);
    let f = final_seq(g, ov, d0, x);
    assert forall|i: int| 0 <= i < cur.len() implies cur[i] == f[i] by {
        let l = lo(g, x) + 1 + i;
        assert(l >= 1);
    }
    assert(cur =~= f);
}

/// Some state that leads to `v` has a string of the length `l - 1`, for
/// every length `l` of a string of `v`: the states that lead to `v` cover
/// the interval of `v`, and the search for the one that carries `l` goes
/// down the suffix links from `u`.
pub proof fn lemma_carrier_from(g: Seq<NodeView>, v: int, l: int, u: int, k: u32) -> (r: int)
    requires
        graph_wf(g),
        edge(g, u, k, v),
        lo(g, v) < l <= g[u].len + 1,
    ensures
        carries(g, r, v, l),
        1 <= r < g.len(),
    decreases g[u].len,
{
    lemma_pred_cases(g, u, k, v);
    lemma_interval(g, u);
    if lo(g, u) < l - 1 {
        assert(carries(g, u, v, l));
        u
    } else {
        assert(!lowest_pred(g, u, v));
        assert(link_ok(g, u));
        lemma_carrier_from(g, v, l, g[u].link as int, k)
    }
}

/// The state that carries the length `l` for `v` is a proper state that
/// leads to `v`, with a string of the length `l - 1`.
pub proof fn lemma_carrier_exists(g: Seq<NodeView>, v: int, l: int)
    requires
        graph_wf(g),
        2 <= v < g.len(),
        lo(g, v) < l <= g[v].len,
    ensures
        carries(g, carrier(g, v, l), v, l),
        1 <= carrier(g, v, l) < g.len(),
{
    let (u, k) = lemma_top_pred(g, v);
    let r = lemma_carrier_from(g, v, l, u, k);
    let c = carrier(g, v, l);
    assert(carries(g, c, v, l));
    let k2 = choose|k2: u32| #[trigger] edge(g, c, k2, v);
    lemma_pred_cases(g, c, k2, v);
}

/// Where a list gives an entry for a length, one of its pairs has this
/// length and this entry.
pub proof fn lemma_override_witness<Inner>(o: Seq<(usize, Inner)>, l: int) -> (j: int)
    requires
        override_at(o, l) is Some,
    ensures
        0 <= j < o.len(),
        o[j].0 == l,
        override_at(o, l) == Some(o[j].1),
    decreases o.len(),
{
    if o.last().0 == l {
        o.len() - 1
    } else {
        lemma_override_witness(o.drop_last(), l)
    }
}

} // verus!
