//! What the strings that an automaton reads have to do with its structure:
//! a string that is read leads to a state that is at least as long, every
//! suffix of it is read too and leads to a suffix ancestor, and an extension
//! step leaves alone what was read along longest strings.
use crate::sam_extend::{
    extended, lemma_len_after, lemma_plan_facts, lemma_target_after, plan_ok, plan_q, primary_out,
    ExtendPlan,
};
use crate::sam_model::{
    edge, edge_ok, graph_wf, has_primary, link_ok, lo, preds_apart, primary_edge, run, step,
    suffix_step_ok, NodeView,
};
use crate::sam_order::link_reaches;
use crate::trie_alike::{child_at, walk, IterAsChain, TrieNodeAlike};
use vstd::prelude::*;

verus! {

/// A string that is read from the root leads to a proper state whose
/// longest string is at least as long.
pub proof fn lemma_run_len(g: Seq<NodeView>, w: Seq<u32>)
    requires
        graph_wf(g),
        run(g, 1, w) != 0,
    ensures
        1 <= run(g, 1, w) < g.len(),
        g[run(g, 1, w)].len >= w.len(),
        w.len() > 0 ==> run(g, 1, w.drop_last()) != 0 && edge(
            g,
            run(g, 1, w.drop_last()),
            w.last(),
            run(g, 1, w),
        ),
    decreases w.len(),
{
    if w.len() > 0 {
        let u = run(g, 1, w.drop_last());
        assert(u != 0);
        lemma_run_len(g, w.drop_last());
        assert(edge_ok(g, u, w.last()));
    }
}

/// Where a string leads to a state of its own length, so do its prefixes.
pub proof fn lemma_exact_prefix(g: Seq<NodeView>, w: Seq<u32>)
    requires
        graph_wf(g),
        run(g, 1, w) != 0,
        g[run(g, 1, w)].len == w.len(),
        w.len() > 0,
    ensures
        run(g, 1, w.drop_last()) != 0,
        g[run(g, 1, w.drop_last())].len == w.len() - 1,
        primary_out(g, run(g, 1, w.drop_last()), w.last()),
{
    lemma_run_len(g, w);
    lemma_run_len(g, w.drop_last());
    let u = run(g, 1, w.drop_last());
    assert(edge_ok(g, u, w.last()));
}

/// An extension step leaves a string that led to a state of its own length
/// where it was.
pub proof fn lemma_run_stable(g: Seq<NodeView>, plan: ExtendPlan, w: Seq<u32>)
    requires
        graph_wf(g),
        plan_ok(g, plan),
        extended(g, plan).len() <= usize::MAX,
        run(g, 1, w) != 0,
        g[run(g, 1, w)].len == w.len(),
    ensures
        run(extended(g, plan), 1, w) == run(g, 1, w),
    decreases w.len(),
{
    if w.len() > 0 {
        lemma_exact_prefix(g, w);
        lemma_run_stable(g, plan, w.drop_last());
        lemma_run_len(g, w.drop_last());
        lemma_plan_facts(g, plan);
        let h = extended(g, plan);
        let u = run(g, 1, w.drop_last());
        let k = w.last();
        let chain = plan.chain;
        let red = plan.red;
        if chain.contains(u) {
            let i = choose|i: int| 0 <= i < chain.len() && chain[i] == u;
            assert(!g[chain[i]].trans.contains_key(plan.key));
        } else if red.contains(u) && k == plan.key {
            let j = choose|j: int| 0 <= j < red.len() && red[j] == u;
            assert(edge(g, red[j], plan.key, crate::sam_extend::plan_q(g, plan)));
            assert(g[red[j]].len <= g[plan.p].len);
            assert(false);
        }
        assert(h[u].trans.contains_key(k) && h[u].trans[k] == g[u].trans[k]);
    }
}

/// Going up the suffix links is transitive.
pub proof fn lemma_reaches_trans(g: Seq<NodeView>, d: int, m: int, a: int)
    requires
        graph_wf(g),
        link_reaches(g, d, m),
        link_reaches(g, m, a),
    ensures
        link_reaches(g, d, a),
    decreases g[d].len,
{
    if d != m {
        assert(link_ok(g, d));
        lemma_reaches_trans(g, g[d].link as int, m, a);
    }
}

/// Where a state has a transition, so has every suffix ancestor, and that
/// one leads to a suffix ancestor of the target.
pub proof fn lemma_step_up(g: Seq<NodeView>, u: int, a: int, k: u32)
    requires
        graph_wf(g),
        1 <= u < g.len(),
        g[u].trans.contains_key(k),
        link_reaches(g, u, a),
    ensures
        step(g, a, k) != 0,
        link_reaches(g, step(g, u, k), step(g, a, k)),
    decreases g[u].len,
{
    let v = step(g, u, k);
    assert(edge_ok(g, u, k));
    assert(link_reaches(g, v, v));
    if u != a {
        assert(link_ok(g, u));
        let t = g[u].link as int;
        assert(suffix_step_ok(g, u, k));
        let w1 = step(g, t, k);
        assert(link_ok(g, v));
        assert(link_reaches(g, g[v].link as int, g[v].link as int));
        assert(link_reaches(g, v, w1));
        lemma_step_up(g, t, a, k);
        lemma_reaches_trans(g, v, w1, step(g, a, k));
    }
}

/// Every suffix of a string that is read is read too, and leads to a suffix
/// ancestor of the state that the string leads to.
pub proof fn lemma_suffix_closed(g: Seq<NodeView>, w: Seq<u32>, j: int)
    requires
        graph_wf(g),
        run(g, 1, w) != 0,
        0 <= j <= w.len(),
    ensures
        run(g, 1, w.skip(j)) != 0,
        link_reaches(g, run(g, 1, w), run(g, 1, w.skip(j))),
    decreases w.len(),
{
    lemma_run_len(g, w);
    let v = run(g, 1, w);
    if j == w.len() {
        assert(w.skip(j) =~= Seq::<u32>::empty());
        lemma_root_above(g, v);
    } else {
        let x = w.drop_last();
        let k = w.last();
        lemma_run_len(g, x);
        lemma_suffix_closed(g, x, j);
        let u = run(g, 1, x);
        let a = run(g, 1, x.skip(j));
        lemma_step_up(g, u, a, k);
        assert(w.skip(j).drop_last() =~= x.skip(j));
        assert(w.skip(j).last() == k);
    }
}

/// Every proper state lies at or below the root in the tree of suffix links.
pub proof fn lemma_root_above(g: Seq<NodeView>, v: int)
    requires
        graph_wf(g),
        1 <= v < g.len(),
    ensures
        link_reaches(g, v, 1),
    decreases g[v].len,
{
    if v != 1 {
        assert(link_ok(g, v));
        let t = g[v].link as int;
        if t == 1 {
            assert(link_reaches(g, 1, 1));
        } else {
            lemma_root_above(g, t);
        }
    }
}

/// Every part of a string that is read is read too.
pub proof fn lemma_substring_read(g: Seq<NodeView>, w: Seq<u32>, i: int, j: int)
    requires
        graph_wf(g),
        run(g, 1, w) != 0,
        0 <= i <= j <= w.len(),
    ensures
        run(g, 1, w.subrange(i, j)) != 0,
{
    lemma_prefix_read(g, w, j);
    lemma_suffix_closed(g, w.take(j), i);
    assert(w.take(j).skip(i) =~= w.subrange(i, j));
}

/// Every prefix of a string that is read is read too.
pub proof fn lemma_prefix_read(g: Seq<NodeView>, w: Seq<u32>, j: int)
    requires
        graph_wf(g),
        run(g, 1, w) != 0,
        0 <= j <= w.len(),
    ensures
        run(g, 1, w.take(j)) != 0,
    decreases w.len(),
{
    if j == w.len() {
        assert(w.take(j) =~= w);
    } else {
        lemma_run_len(g, w);
        lemma_prefix_read(g, w.drop_last(), j);
        assert(w.drop_last().take(j) =~= w.take(j));
    }
}

/// The word `w` of the tree below `root` has its place in the automaton: it
/// is read, it leads to the state of which it is the longest string, and
/// where it is not empty this state is marked as the node of the word is.
pub open spec fn placed<TN: TrieNodeAlike>(g: Seq<NodeView>, root: TN, w: Seq<u32>) -> bool {
    &&& walk(root, w) is Some
    &&& run(g, 1, w) != 0
    &&& g[run(g, 1, w)].len == w.len()
    &&& w.len() > 0 ==> g[run(g, 1, w)].accept == walk(root, w)->0.accepting()
}

/// The word `w` is one of `words`.
pub open spec fn in_words(words: Seq<Seq<u32>>, w: Seq<u32>) -> bool {
    exists|i: int| 0 <= i < words.len() && #[trigger] words[i] == w
}

/// Every word that continues `w` by one symbol in the tree is among the
/// placed ones.
pub open spec fn kids_attached<TN: TrieNodeAlike>(
    attached: Set<Seq<u32>>,
    root: TN,
    w: Seq<u32>,
) -> bool {
    forall|k: u32| child_at(walk(root, w)->0, k) is Some ==> #[trigger] attached.contains(w.push(k))
}

/// Where every placed word has its continuations placed too, every word of
/// the tree is placed.
pub proof fn lemma_all_attached<TN: TrieNodeAlike>(attached: Set<Seq<u32>>, root: TN, w: Seq<u32>)
    requires
        attached.contains(Seq::<u32>::empty()),
        forall|x: Seq<u32>| #[trigger] attached.contains(x) ==> walk(root, x) is Some && kids_attached(attached, root, x),
        walk(root, w) is Some,
    ensures
        attached.contains(w),
    decreases w.len(),
{
    if w.len() == 0 {
        assert(w =~= Seq::<u32>::empty());
    } else {
        let x = w.drop_last();
        lemma_all_attached(attached, root, x);
        assert(kids_attached(attached, root, x));
        assert(x.push(w.last()) =~= w);
    }
}

/// The automaton reads every word of the tree below `root`: each leads to
/// the state of which it is the longest string, and a word that ends at an
/// accepting node leads to an accepting state.
#[verifier::opaque]
pub open spec fn reads_tree<TN: TrieNodeAlike>(g: Seq<NodeView>, root: TN) -> bool {
    forall|w: Seq<u32>| #[trigger]
        walk(root, w) is Some ==> {
            &&& run(g, 1, w) != 0
            &&& g[run(g, 1, w)].len == w.len()
            &&& walk(root, w)->0.accepting() ==> g[run(g, 1, w)].accept
        }
}

/// What an automaton that reads a tree does with one of its words.
pub proof fn lemma_reads_word<TN: TrieNodeAlike>(g: Seq<NodeView>, root: TN, w: Seq<u32>)
    requires
        reads_tree(g, root),
        walk(root, w) is Some,
    ensures
        run(g, 1, w) != 0,
        g[run(g, 1, w)].len == w.len(),
        walk(root, w)->0.accepting() ==> g[run(g, 1, w)].accept,
{
    reveal(reads_tree);
}

/// Two automata with the same transitions read alike.
pub proof fn lemma_same_trans_same_run(g: Seq<NodeView>, h: Seq<NodeView>, v: int, w: Seq<u32>)
    requires
        g.len() == h.len(),
        forall|u: int| 0 <= u < g.len() ==> (#[trigger] h[u]).trans == g[u].trans,
    ensures
        run(h, v, w) == run(g, v, w),
    decreases w.len(),
{
    if w.len() > 0 {
        lemma_same_trans_same_run(g, h, v, w.drop_last());
        let u = run(g, v, w.drop_last());
        if 0 <= u < g.len() {
            assert(h[u].trans == g[u].trans);
        }
    }
}

/// An accepting state hands its mark up the suffix links, as far as the
/// root.
pub proof fn lemma_accept_up(g: Seq<NodeView>, d: int, a: int)
    requires
        graph_wf(g),
        accept_closed(g),
        1 <= d < g.len(),
        link_reaches(g, d, a),
        g[d].accept,
    ensures
        g[a].accept,
    decreases g[d].len,
{
    if d != a {
        assert(link_ok(g, d));
        lemma_accept_up(g, g[d].link as int, a);
    }
}

/// The suffix parent of an accepting state is accepting.
pub open spec fn accept_closed(g: Seq<NodeView>) -> bool {
    forall|v: int| 2 <= v < g.len() && (#[trigger] g[v]).accept ==> g[g[v].link as int].accept
}

/// An automaton that reads the words of a tree reads every part of every
/// word: no part of a word leads to the absent state.
pub proof fn lemma_substrings_are_read<TN: TrieNodeAlike>(
    g: Seq<NodeView>,
    root: TN,
    w: Seq<u32>,
    i: int,
    j: int,
)
    requires
        graph_wf(g),
        reads_tree(g, root),
        walk(root, w) is Some,
        0 <= i <= j <= w.len(),
    ensures
        run(g, 1, w.subrange(i, j)) != 0,
{
    lemma_reads_word(g, root, w);
    lemma_substring_read(g, w, i, j);
}

/// An automaton that reads the words of a tree accepts every suffix, the
/// empty one too, of every word that ends at an accepting node.
pub proof fn lemma_suffixes_are_accepted<TN: TrieNodeAlike>(
    g: Seq<NodeView>,
    root: TN,
    w: Seq<u32>,
    j: int,
)
    requires
        graph_wf(g),
        accept_closed(g),
        reads_tree(g, root),
        walk(root, w) is Some,
        walk(root, w)->0.accepting(),
        0 <= j <= w.len(),
    ensures
        run(g, 1, w.skip(j)) != 0,
        g[run(g, 1, w.skip(j))].accept,
{
    lemma_reads_word(g, root, w);
    lemma_suffix_closed(g, w, j);
    lemma_run_len(g, w);
    lemma_accept_up(g, run(g, 1, w), run(g, 1, w.skip(j)));
}

/// The words of the chain of a sequence are its prefixes.
pub proof fn lemma_chain_walk(chain: IterAsChain<'_>, w: Seq<u32>)
    requires
        chain.pos == 0,
        chain.wf(),
    ensures
        walk(chain, w) is Some <==> w.len() <= chain.seq@.len() && w == chain.seq@.take(w.len() as int),
        walk(chain, w) matches Some(c) ==> c.seq == chain.seq && c.pos == w.len() && (c.accepting()
            <==> w == chain.seq@),
    decreases w.len(),
{
    let s = chain.seq@;
    assert(s.take(s.len() as int) =~= s);
    if w.len() == 0 {
        assert(w =~= s.take(0));
        assert(walk(chain, w) == Some(chain));
        if s.len() == 0 {
            assert(w =~= s);
        }
    } else {
        let x = w.drop_last();
        let k = w.last();
        lemma_chain_walk(chain, x);
        assert(x.push(k) =~= w);
        let prefix_ok = w.len() <= s.len() && w == s.take(w.len() as int);
        if prefix_ok {
            assert(x =~= s.take(x.len() as int));
            assert(k == s[w.len() - 1]);
        }
        match walk(chain, x) {
            Some(p) => {
                assert(p.seq == chain.seq && p.pos == x.len());
                let c = p.children();
                if p.pos < s.len() && k == s[p.pos as int] {
                    assert(c.len() == 1);
                    assert(c[0].0 == k);
                    let i0 = choose|i: int| 0 <= i < c.len() && (#[trigger] c[i]).0 == k;
                    assert(i0 == 0);
                    assert(child_at(p, k) == Some(c[0].1));
                    assert(walk(chain, w) == Some(c[0].1));
                    assert(c[0].1.pos == w.len());
                    assert(w =~= s.take(w.len() as int)) by {
                        assert(x == s.take(x.len() as int));
                        assert forall|i: int| 0 <= i < w.len() implies w[i] == s.take(w.len() as int)[i] by {
                            if i < x.len() {
                                assert(w[i] == x[i]);
                                assert(x[i] == s.take(x.len() as int)[i]);
                            }
                        }
                    }
                    if w.len() == s.len() {
                        assert(w =~= s);
                    }
                } else {
                    assert(child_at(p, k) is None) by {
                        if exists|i: int| 0 <= i < c.len() && (#[trigger] c[i]).0 == k {
                            let i0 = choose|i: int| 0 <= i < c.len() && (#[trigger] c[i]).0 == k;
                            assert(c.len() == 1);
                            assert(i0 == 0);
                            assert(false);
                        }
                    }
                    assert(walk(chain, w) is None);
                    assert(!prefix_ok);
                }
            },
            None => {
                assert(walk(chain, w) is None);
                assert(!prefix_ok);
            },
        }
    }
}

/// `w` is what `x` ends with.
pub open spec fn is_suffix(w: Seq<u32>, x: Seq<u32>) -> bool {
    w.len() <= x.len() && w == x.skip(x.len() - w.len())
}

/// A suffix of a suffix is a suffix.
pub proof fn lemma_suffix_trans(w: Seq<u32>, y: Seq<u32>, x: Seq<u32>)
    requires
        is_suffix(w, y),
        is_suffix(y, x),
    ensures
        is_suffix(w, x),
{
    let a = y.len() - w.len();
    let b = x.len() - y.len();
    assert(x.skip(b).skip(a) =~= x.skip(a + b));
}

/// The length of a string that is read lies in the interval of the state
/// that it leads to.
pub proof fn lemma_run_interval(g: Seq<NodeView>, w: Seq<u32>)
    requires
        graph_wf(g),
        run(g, 1, w) != 0,
    ensures
        lo(g, run(g, 1, w)) < w.len() <= g[run(g, 1, w)].len,
    decreases w.len(),
{
    lemma_run_len(g, w);
    if w.len() > 0 {
        lemma_run_interval(g, w.drop_last());
        let u = run(g, 1, w.drop_last());
        assert(edge_ok(g, u, w.last()));
    }
}

/// A suffix ancestor is no longer than its descendant, and a proper one is
/// no longer than the lower end of the interval of the descendant.
pub proof fn lemma_reaches_len(g: Seq<NodeView>, d: int, a: int)
    requires
        graph_wf(g),
        1 <= d < g.len(),
        link_reaches(g, d, a),
    ensures
        1 <= a < g.len(),
        g[a].len <= g[d].len,
        d != a ==> g[a].len <= lo(g, d),
    decreases g[d].len,
{
    if d != a {
        assert(link_ok(g, d));
        lemma_reaches_len(g, g[d].link as int, a);
    }
}

/// Two strings that lead to one state end alike: the shorter is a suffix of
/// the longer.
pub proof fn lemma_same_state_suffix(g: Seq<NodeView>, w: Seq<u32>, w2: Seq<u32>)
    requires
        graph_wf(g),
        run(g, 1, w) != 0,
        run(g, 1, w) == run(g, 1, w2),
        w.len() <= w2.len(),
    ensures
        is_suffix(w, w2),
    decreases w2.len(),
{
    let v = run(g, 1, w);
    lemma_run_interval(g, w);
    lemma_run_interval(g, w2);
    if w2.len() == 0 {
        assert(w =~= w2.skip(0));
    } else if w.len() == 0 {
        assert(v == 1);
        assert(false);
    } else {
        let x = w.drop_last();
        let k = w.last();
        let x2 = w2.drop_last();
        let k2 = w2.last();
        lemma_run_len(g, w);
        lemma_run_len(g, w2);
        let u = run(g, 1, x);
        let u2 = run(g, 1, x2);
        let j = x2.len() - x.len();
        let y = x2.skip(j);
        lemma_suffix_closed(g, x2, j);
        let a = run(g, 1, y);
        lemma_run_len(g, x2);
        lemma_step_up(g, u2, a, k2);
        let v2 = step(g, a, k2);
        let yk = y.push(k2);
        assert(yk.drop_last() =~= y);
        assert(yk.last() == k2);
        assert(run(g, 1, yk) == v2);
        lemma_run_interval(g, yk);
        lemma_reaches_len(g, v, v2);
        assert(v2 == v);
        lemma_run_interval(g, y);
        lemma_run_interval(g, x);
        lemma_run_len(g, y);
        assert(g[a].trans.contains_key(k2));
        assert(g[u].trans.contains_key(k));
        assert(preds_apart(g, a, k2, u, k));
        assert(a == u && k2 == k);
        lemma_same_state_suffix(g, x, y);
        assert(x =~= y.skip(0));
        assert(x == y);
        assert(w =~= x.push(k));
        assert(w2.skip(j) =~= y.push(k2));
    }
}

/// What a string leads to after an extension step it led to before, with
/// the cloned state in place of the clone, unless it leads to the new state.
pub proof fn lemma_runs_back(g: Seq<NodeView>, plan: ExtendPlan, w: Seq<u32>)
    requires
        graph_wf(g),
        plan_ok(g, plan),
        extended(g, plan).len() <= usize::MAX,
        run(extended(g, plan), 1, w) != 0,
        run(extended(g, plan), 1, w) != g.len(),
    ensures
        run(g, 1, w) == (if run(extended(g, plan), 1, w) == g.len() + 1 {
            plan_q(g, plan)
        } else {
            run(extended(g, plan), 1, w)
        }),
    decreases w.len(),
{
    let h = extended(g, plan);
    if w.len() > 0 {
        let x = w.drop_last();
        let k = w.last();
        let uh = run(h, 1, x);
        assert(uh != 0);
        assert(h[uh].trans.contains_key(k));
        lemma_target_after(g, plan, uh, k);
        lemma_runs_back(g, plan, x);
        lemma_plan_facts(g, plan);
        if uh < g.len() && plan.red.contains(uh) && k == plan.key {
            let j = choose|j: int| 0 <= j < plan.red.len() && plan.red[j] == uh;
            assert(edge(g, plan.red[j], plan.key, plan_q(g, plan)));
        }
    }
}

/// Every proper state is reached by a string as long as its longest.
pub proof fn lemma_reachable(g: Seq<NodeView>, v: int) -> (z: Seq<u32>)
    requires
        graph_wf(g),
        1 <= v < g.len(),
    ensures
        run(g, 1, z) == v,
        z.len() == g[v].len,
    decreases g[v].len,
{
    if v == 1 {
        Seq::empty()
    } else {
        assert(has_primary(g, v));
        let (u, k) = choose|u: int, k: u32| #[trigger] primary_edge(g, u, k, v);
        assert(u != 0) by {
            assert(g[0].trans =~= Map::<u32, usize>::empty());
        }
        let x = lemma_reachable(g, u);
        let z = x.push(k);
        assert(z.drop_last() =~= x);
        assert(z.last() == k);
        z
    }
}

/// Of two suffix ancestors of one state, one is a suffix ancestor of the
/// other.
pub proof fn lemma_ancestors_comparable(g: Seq<NodeView>, d: int, a: int, b: int)
    requires
        graph_wf(g),
        1 <= d < g.len(),
        link_reaches(g, d, a),
        link_reaches(g, d, b),
    ensures
        link_reaches(g, a, b) || link_reaches(g, b, a),
    decreases g[d].len,
{
    if d == a {
    } else if d == b {
    } else {
        assert(link_ok(g, d));
        lemma_ancestors_comparable(g, g[d].link as int, a, b);
    }
}

/// A string that leads to a suffix ancestor of the state of another string
/// is a suffix of that string.
pub proof fn lemma_ancestor_suffix(g: Seq<NodeView>, z: Seq<u32>, w: Seq<u32>)
    requires
        graph_wf(g),
        run(g, 1, z) != 0,
        run(g, 1, w) != 0,
        link_reaches(g, run(g, 1, z), run(g, 1, w)),
        w.len() <= z.len(),
    ensures
        is_suffix(w, z),
{
    let d = run(g, 1, z);
    let v = run(g, 1, w);
    let j = z.len() - w.len();
    let y = z.skip(j);
    lemma_run_len(g, z);
    lemma_suffix_closed(g, z, j);
    let a = run(g, 1, y);
    lemma_run_interval(g, y);
    lemma_run_interval(g, w);
    lemma_ancestors_comparable(g, d, a, v);
    lemma_run_len(g, y);
    lemma_run_len(g, w);
    if link_reaches(g, a, v) {
        lemma_reaches_len(g, a, v);
    }
    if link_reaches(g, v, a) {
        lemma_reaches_len(g, v, a);
    }
    assert(a == v);
    lemma_same_state_suffix(g, w, y);
    assert(y.skip(0) =~= y);
    assert(w == y);
}

/// `w` is a suffix of a word of the tree below `root`: of a string that
/// leads to an accepting node.
pub open spec fn suffix_of_word<TN: TrieNodeAlike>(root: TN, w: Seq<u32>) -> bool {
    exists|x: Seq<u32>| #[trigger] is_suffix(w, x) && walk(root, x) is Some && walk(root, x)->0.accepting()
}

/// Every string that leads to a marked state other than the root is a
/// suffix of a word of the tree.
#[verifier::opaque]
pub open spec fn marks_sound<TN: TrieNodeAlike>(g: Seq<NodeView>, root: TN) -> bool {
    forall|w: Seq<u32>|
        (#[trigger] run(g, 1, w)) >= 2 && run(g, 1, w) < g.len() && g[run(g, 1, w)].accept
            ==> suffix_of_word(root, w)
}

/// An extension step for a word of the tree keeps the marks sound.
pub proof fn lemma_marks_after<TN: TrieNodeAlike>(
    g: Seq<NodeView>,
    plan: ExtendPlan,
    root: TN,
    nw: Seq<u32>,
)
    requires
        graph_wf(g),
        plan_ok(g, plan),
        extended(g, plan).len() <= usize::MAX,
        marks_sound(g, root),
        run(extended(g, plan), 1, nw) == g.len(),
        nw.len() == extended(g, plan)[g.len() as int].len,
        walk(root, nw) is Some,
        walk(root, nw)->0.accepting() == plan.accept,
    ensures
        marks_sound(extended(g, plan), root),
{
    reveal(marks_sound);
    let h = extended(g, plan);
    crate::sam_extend::lemma_extend_wf(g, plan);
    lemma_len_after(g, plan);
    lemma_plan_facts(g, plan);
    assert forall|w: Seq<u32>|
        (#[trigger] run(h, 1, w)) >= 2 && run(h, 1, w) < h.len() && h[run(h, 1, w)].accept implies suffix_of_word(
        root,
        w,
    ) by {
        let d = run(h, 1, w);
        if d == g.len() {
            lemma_run_len(h, w);
            lemma_run_interval(h, nw);
            lemma_run_interval(h, w);
            assert(w.len() <= nw.len());
            lemma_same_state_suffix(h, w, nw);
            assert(is_suffix(w, nw));
        } else {
            lemma_runs_back(g, plan, w);
            let dg = run(g, 1, w);
            assert(g[dg].accept);
            assert(dg >= 2) by {
                if dg < 2 {
                    assert(d == g.len() + 1 || d == dg);
                }
            }
            assert(suffix_of_word(root, w));
        }
    }
}

/// In an automaton whose marks are sound and were handed up the suffix
/// links, every string that is accepted is a suffix of a word of the tree.
pub proof fn lemma_accepted_is_suffix<TN: TrieNodeAlike>(
    g: Seq<NodeView>,
    root: TN,
    w: Seq<u32>,
)
    requires
        graph_wf(g),
        marks_sound(g, root),
        g[1].accept ==> root.accepting(),
        run(g, 1, w) != 0,
        crate::sam_order::marked_below(g, run(g, 1, w)),
    ensures
        suffix_of_word(root, w),
{
    reveal(marks_sound);
    let v = run(g, 1, w);
    lemma_run_len(g, w);
    let d = choose|d: int| 1 <= d < g.len() && #[trigger] link_reaches(g, d, v) && g[d].accept;
    if d == 1 {
        lemma_run_interval(g, w);
        assert(w =~= Seq::<u32>::empty());
        assert(w.skip(0) =~= w);
        assert(is_suffix(w, w) && walk(root, w) is Some && walk(root, w)->0.accepting());
    } else {
        let z = lemma_reachable(g, d);
        lemma_reaches_len(g, d, v);
        lemma_ancestor_suffix(g, z, w);
        assert(suffix_of_word(root, z));
        let x = choose|x: Seq<u32>| #[trigger]
            is_suffix(z, x) && walk(root, x) is Some && walk(root, x)->0.accepting();
        lemma_suffix_trans(w, z, x);
    }
}

/// Every string that the automaton accepts is a suffix of a word of the
/// tree below `root`.
#[verifier::opaque]
pub open spec fn accepts_suffixes_only<TN: TrieNodeAlike>(g: Seq<NodeView>, root: TN) -> bool {
    forall|w: Seq<u32>|
        (#[trigger] run(g, 1, w)) != 0 && g[run(g, 1, w)].accept ==> suffix_of_word(root, w)
}

/// The automaton of a vocabulary accepts a string exactly when the string
/// is a suffix of a word of the vocabulary. The empty string is a suffix of
/// every word, so the root accepts exactly when there is a word.
pub proof fn lemma_accepts_exactly_suffixes<TN: TrieNodeAlike>(
    g: Seq<NodeView>,
    root: TN,
    w: Seq<u32>,
)
    requires
        graph_wf(g),
        accept_closed(g),
        reads_tree(g, root),
        accepts_suffixes_only(g, root),
    ensures
        (run(g, 1, w) != 0 && g[run(g, 1, w)].accept) <==> suffix_of_word(root, w),
{
    if run(g, 1, w) != 0 && g[run(g, 1, w)].accept {
        assert(suffix_of_word(root, w)) by {
            reveal(accepts_suffixes_only);
        }
    }
    if suffix_of_word(root, w) {
        let x = choose|x: Seq<u32>| #[trigger] is_suffix(w, x) && walk(root, x) is Some && walk(root, x)->0.accepting();
        lemma_suffixes_are_accepted(g, root, x, x.len() - w.len());
    }
}

/// The marks of the automaton of the empty vocabulary are sound.
pub proof fn lemma_marks_initial<TN: TrieNodeAlike>(root: TN, accept: bool)
    ensures
        marks_sound(crate::sam_model::initial_graph(accept), root),
{
    reveal(marks_sound);
    let g = crate::sam_model::initial_graph(accept);
    assert forall|w: Seq<u32>|
        (#[trigger] run(g, 1, w)) >= 2 && run(g, 1, w) < g.len() && g[run(g, 1, w)].accept implies suffix_of_word(
        root,
        w,
    ) by {}
}

/// The automaton of the chain of a sequence reads every part of the
/// sequence, and of the parts it accepts the suffixes.
pub proof fn lemma_reads_parts(g: Seq<NodeView>, chain: IterAsChain<'_>, i: int, j: int)
    requires
        graph_wf(g),
        accept_closed(g),
        chain.pos == 0,
        chain.wf(),
        reads_tree(g, chain),
        accepts_suffixes_only(g, chain),
        0 <= i <= j <= chain.seq@.len(),
    ensures
        run(g, 1, chain.seq@.subrange(i, j)) != 0,
        g[run(g, 1, chain.seq@.subrange(i, j))].accept <==> is_suffix(
            chain.seq@.subrange(i, j),
            chain.seq@,
        ),
{
    let s = chain.seq@;
    let w = s.subrange(i, j);
    lemma_chain_walk(chain, s);
    assert(s.take(s.len() as int) =~= s);
    lemma_substrings_are_read(g, chain, s, i, j);
    lemma_accepts_exactly_suffixes(g, chain, w);
    if suffix_of_word(chain, w) {
        let x = choose|x: Seq<u32>| #[trigger]
            is_suffix(w, x) && walk(chain, x) is Some && walk(chain, x)->0.accepting();
        lemma_chain_walk(chain, x);
        assert(x == s);
    }
    if is_suffix(w, s) {
        assert(walk(chain, s) is Some && walk(chain, s)->0.accepting());
        assert(suffix_of_word(chain, w));
    }
}

/// The suffix of a string that is read leads to the one suffix ancestor of
/// the state of the string whose interval holds the length of the suffix.
pub proof fn lemma_suffix_state(g: Seq<NodeView>, w: Seq<u32>, j: int, y: int)
    requires
        graph_wf(g),
        run(g, 1, w) != 0,
        0 <= j <= w.len(),
        link_reaches(g, run(g, 1, w), y),
        lo(g, y) < w.len() - j <= g[y].len,
    ensures
        run(g, 1, w.skip(j)) == y,
{
    let x = run(g, 1, w);
    let z = run(g, 1, w.skip(j));
    lemma_run_len(g, w);
    lemma_suffix_closed(g, w, j);
    lemma_run_interval(g, w.skip(j));
    lemma_reaches_len(g, x, y);
    lemma_reaches_len(g, x, z);
    lemma_ancestors_comparable(g, x, y, z);
    if link_reaches(g, y, z) {
        lemma_reaches_len(g, y, z);
    } else {
        lemma_reaches_len(g, z, y);
    }
}

/// Every length in the interval of a proper state is the length of a
/// string that leads to the state.
pub proof fn lemma_interval_is_filled(g: Seq<NodeView>, v: int, l: int) -> (w: Seq<u32>)
    requires
        graph_wf(g),
        1 <= v < g.len(),
        lo(g, v) < l <= g[v].len,
    ensures
        w.len() == l,
        run(g, 1, w) == v,
{
    let z = lemma_reachable(g, v);
    assert(link_reaches(g, v, v));
    lemma_suffix_state(g, z, g[v].len - l, v);
    z.skip(g[v].len - l)
}

/// The word `x` of the tree below `root` ends at an accepting node and
/// leads to a state at or below `v` in the tree of suffix links.
pub open spec fn word_below<TN: TrieNodeAlike>(g: Seq<NodeView>, root: TN, v: int, x: Seq<u32>) -> bool {
    &&& walk(root, x) is Some
    &&& walk(root, x)->0.accepting()
    &&& link_reaches(g, run(g, 1, x), v)
}

/// A proper state of the automaton of a vocabulary accepts exactly when a
/// word of the vocabulary leads to the state itself or to a state below it
/// in the tree of suffix links.
pub proof fn lemma_accepting_states<TN: TrieNodeAlike>(g: Seq<NodeView>, root: TN, v: int)
    requires
        graph_wf(g),
        accept_closed(g),
        reads_tree(g, root),
        accepts_suffixes_only(g, root),
        1 <= v < g.len(),
    ensures
        g[v].accept <==> exists|x: Seq<u32>| #[trigger] word_below(g, root, v, x),
{
    if g[v].accept {
        let z = lemma_reachable(g, v);
        assert(suffix_of_word(root, z)) by {
            reveal(accepts_suffixes_only);
        }
        let x = choose|x: Seq<u32>| #[trigger]
            is_suffix(z, x) && walk(root, x) is Some && walk(root, x)->0.accepting();
        lemma_reads_word(g, root, x);
        lemma_suffix_closed(g, x, x.len() - z.len());
        assert(word_below(g, root, v, x));
    }
    if exists|x: Seq<u32>| #[trigger] word_below(g, root, v, x) {
        let x = choose|x: Seq<u32>| #[trigger] word_below(g, root, v, x);
        lemma_reads_word(g, root, x);
        lemma_run_len(g, x);
        lemma_accept_up(g, run(g, 1, x), v);
    }
}

} // verus!
