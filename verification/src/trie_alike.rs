//! What the construction of an automaton asks of its source: a finite tree
//! whose nodes say whether a word ends at them and list their children by
//! symbol. A trie is one, and so is a single sequence, read as a chain.
use std::collections::VecDeque;
use vstd::prelude::*;

verus! {

/// A node of a finite tree with symbols on its edges.
pub trait TrieNodeAlike: Sized + Copy {
    /// The node is a valid node of a valid tree.
    spec fn wf(&self) -> bool;

    /// A word ends at this node.
    spec fn accepting(&self) -> bool;

    /// The children with the symbols that lead to them, in the order in
    /// which they are walked.
    spec fn children(&self) -> Seq<(u32, Self)>;

    /// The number of nodes of the subtree below and including this node.
    spec fn size(&self) -> nat;

    /// Every symbol of the subtree is below `bound`.
    spec fn symbols_below(&self, bound: nat) -> bool;

    /// Whether a word ends at this node.
    fn is_accepting(&self) -> (r: bool)
        requires
            self.wf(),
        ensures
            r == self.accepting(),
    ;

    /// The children of this node.
    fn next_states(&self) -> (r: Vec<(u32, Self)>)
        requires
            self.wf(),
        ensures
            r@ == self.children(),
            forall|i: int| 0 <= i < r@.len() ==> (#[trigger] r@[i]).1.wf(),
            forall|i: int, j: int| 0 <= i < j < r@.len() ==> (#[trigger] r@[i]).0 != (#[trigger] r@[j]).0,
            self.size() == 1 + sum_nat(Seq::new(r@.len(), |i: int| r@[i].1.size())),
            forall|b: nat, i: int|
                #![trigger r@[i].1.symbols_below(b)]
                self.symbols_below(b) && 0 <= i < r@.len() ==> r@[i].0 < b && r@[i].1.symbols_below(b),
    ;
}

/// The child of `node` behind the symbol `k`, if there is one.
pub open spec fn child_at<TN: TrieNodeAlike>(node: TN, k: u32) -> Option<TN> {
    let c = node.children();
    if exists|i: int| 0 <= i < c.len() && (#[trigger] c[i]).0 == k {
        Some(c[choose|i: int| 0 <= i < c.len() && (#[trigger] c[i]).0 == k].1)
    } else {
        None
    }
}

/// The node that the symbols of `w` lead to from `node`, if they lead
/// anywhere.
pub open spec fn walk<TN: TrieNodeAlike>(node: TN, w: Seq<u32>) -> Option<TN>
    decreases w.len(),
{
    if w.len() == 0 {
        Some(node)
    } else {
        match walk(node, w.drop_last()) {
            Some(p) => child_at(p, w.last()),
            None => None,
        }
    }
}

/// The words of the tree below `root` with their tokens: every word that
/// is not empty, with what `tok` makes of the node at which it ends.
pub open spec fn tree_vocab<TN: TrieNodeAlike, D>(root: TN, tok: spec_fn(TN) -> D) -> Map<
    Seq<u32>,
    D,
> {
    Map::new(
        |x: Seq<u32>| x.len() > 0 && walk(root, x) is Some && walk(root, x)->0.accepting(),
        |x: Seq<u32>| tok(walk(root, x)->0),
    )
}

/// The sum of a sequence of numbers.
pub open spec fn sum_nat(s: Seq<nat>) -> nat
    decreases s.len(),
{
    if s.len() == 0 {
        0
    } else {
        sum_nat(s.drop_last()) + s.last()
    }
}

/// A sequence of symbols from a position on, read as a tree in which every
/// node has one child: the rest of the sequence.
#[derive(Clone, Copy)]
pub struct IterAsChain<'a> {
    pub seq: &'a [u32],
    pub pos: usize,
}

impl<'a> IterAsChain<'a> {
    /// The chain of the whole sequence.
    pub fn from(seq: &'a [u32]) -> (r: Self)
        ensures
            r.seq@ == seq@,
            r.pos == 0,
            r.wf(),
    {
        let n = seq.len();
        IterAsChain { seq, pos: 0 }
    }
}

impl<'a> TrieNodeAlike for IterAsChain<'a> {
    open spec fn wf(&self) -> bool {
        self.pos <= self.seq@.len() <= usize::MAX
    }

    open spec fn accepting(&self) -> bool {
        self.pos == self.seq@.len()
    }

    open spec fn children(&self) -> Seq<(u32, Self)> {
        if self.pos < self.seq@.len() {
            seq![(self.seq@[self.pos as int], IterAsChain { seq: self.seq, pos: (self.pos + 1) as usize })]
        } else {
            Seq::empty()
        }
    }

    open spec fn size(&self) -> nat {
        (self.seq@.len() - self.pos + 1) as nat
    }

    open spec fn symbols_below(&self, bound: nat) -> bool {
        forall|i: int| self.pos <= i < self.seq@.len() ==> (#[trigger] self.seq@[i]) < bound
    }

    fn is_accepting(&self) -> (r: bool) {
        self.pos >= self.seq.len()
    }

    fn next_states(&self) -> (r: Vec<(u32, Self)>) {
        let mut out: Vec<(u32, Self)> = Vec::new();
        if self.pos < self.seq.len() {
            let next = IterAsChain { seq: self.seq, pos: self.pos + 1 };
            out.push((self.seq[self.pos], next));
        }
        assert(out@ =~= self.children());
        proof {
            let sizes = Seq::new(out@.len(), |i: int| out@[i].1.size());
            if out@.len() > 0 {
                assert(sizes.drop_last() =~= Seq::<nat>::empty());
                assert(sum_nat(sizes.drop_last()) == 0);
            }
        }
        out
    }
}

/// What a walk over a tree reports: the root at the start, every other node
/// when the walk comes to it, with the symbol on the edge to it, and every
/// node when the walk leaves it.
pub enum TravelEvent<TN> {
    PushRoot(TN),
    Push(TN, u32),
    Pop(TN),
}

/// The events of coming to the children `c`, in order.
pub open spec fn pushes<TN>(c: Seq<(u32, TN)>) -> Seq<TravelEvent<TN>> {
    Seq::new(c.len(), |i: int| TravelEvent::Push(c[i].1, c[i].0))
}

/// The nodes of the children `c`, in order.
pub open spec fn kids<TN>(c: Seq<(u32, TN)>) -> Seq<TN> {
    Seq::new(c.len(), |i: int| c[i].1)
}

/// The events of one level of a walk by levels: every node is left, and its
/// children are come to.
pub open spec fn level_events<TN: TrieNodeAlike>(nodes: Seq<TN>) -> Seq<TravelEvent<TN>>
    decreases nodes.len(),
{
    if nodes.len() == 0 {
        Seq::empty()
    } else {
        seq![TravelEvent::Pop(nodes[0])] + pushes(nodes[0].children()) + level_events(
            nodes.drop_first(),
        )
    }
}

/// The nodes of the level below `nodes`.
pub open spec fn next_level<TN: TrieNodeAlike>(nodes: Seq<TN>) -> Seq<TN>
    decreases nodes.len(),
{
    if nodes.len() == 0 {
        Seq::empty()
    } else {
        kids(nodes[0].children()) + next_level(nodes.drop_first())
    }
}

/// The events of a walk by levels from the level `nodes` on, for at most
/// `fuel` levels.
pub open spec fn bfs_levels<TN: TrieNodeAlike>(nodes: Seq<TN>, fuel: nat) -> Seq<TravelEvent<TN>>
    decreases fuel,
{
    if fuel == 0 || nodes.len() == 0 {
        Seq::empty()
    } else {
        level_events(nodes) + bfs_levels(next_level(nodes), (fuel - 1) as nat)
    }
}

/// The events of a walk in depth from the point at which `x` is the node at
/// hand and its first `i` children are done: the other children are walked
/// one after the other, then `x` is left. The walk goes at most `fuel`
/// levels down.
pub open spec fn dfs_from<TN: TrieNodeAlike>(x: TN, i: int, fuel: nat) -> Seq<TravelEvent<TN>>
    decreases fuel, x.children().len() - i,
{
    let c = x.children();
    if 0 <= i < c.len() && fuel > 0 {
        seq![TravelEvent::Push(c[i].1, c[i].0)] + dfs_from(c[i].1, 0, (fuel - 1) as nat) + dfs_from(
            x,
            i + 1,
            fuel,
        )
    } else {
        seq![TravelEvent::Pop(x)]
    }
}

/// A sum is at least each of its numbers.
pub proof fn lemma_sum_ge(s: Seq<nat>, i: int)
    requires
        0 <= i < s.len(),
    ensures
        sum_nat(s) >= s[i],
    decreases s.len(),
{
    if i < s.len() - 1 {
        lemma_sum_ge(s.drop_last(), i);
    }
}

/// What is still to come of a walk in depth: for every node on the stack,
/// from the top down, the rest of its walk.
pub open spec fn dfs_pending<TN: TrieNodeAlike>(frames: Seq<(TN, int, nat)>) -> Seq<TravelEvent<TN>>
    decreases frames.len(),
{
    if frames.len() == 0 {
        Seq::empty()
    } else {
        dfs_from(frames.last().0, frames.last().1, frames.last().2) + dfs_pending(
            frames.drop_last(),
        )
    }
}

/// Walks the tree below `node` level by level: a node is left, then its
/// children are come to in order, and they are left, in that order, once
/// the nodes that were come to before them are done.
pub fn bfs_travel<TN: TrieNodeAlike>(node: TN) -> (r: Vec<TravelEvent<TN>>)
    requires
        node.wf(),
    ensures
        r@ == seq![TravelEvent::PushRoot(node)] + bfs_levels(seq![node], node.size() + 1),
{
    let ghost target = seq![TravelEvent::PushRoot(node)] + bfs_levels(seq![node], node.size() + 1);
    let mut out: Vec<TravelEvent<TN>> = Vec::new();
    out.push(TravelEvent::PushRoot(node));
    let mut queue: VecDeque<TN> = VecDeque::new();
    queue.push_back(node);
    let ghost mut cur: Seq<TN> = seq![node];
    let ghost mut nxt: Seq<TN> = Seq::empty();
    let ghost mut fuel: nat = node.size() + 1;
    proof {
        assert(queue@ =~= cur + nxt);
        assert(next_level(cur.drop_first()) =~= Seq::<TN>::empty());
        assert(level_events(cur.drop_first()) =~= Seq::<TravelEvent<TN>>::empty());
        assert(nxt + next_level(cur) =~= next_level(cur));
        lemma_bfs_step(cur, fuel);
        assert(out@ + level_events(cur) + bfs_levels(nxt + next_level(cur), (fuel - 1) as nat)
            =~= target);
    }
    loop
        invariant
            queue@ == cur + nxt,
            fuel >= 1,
            forall|i: int| 0 <= i < cur.len() ==> (#[trigger] cur[i]).wf() && cur[i].size() < fuel,
            forall|i: int| 0 <= i < nxt.len() ==> (#[trigger] nxt[i]).wf() && nxt[i].size() + 1 < fuel,
            out@ + level_events(cur) + bfs_levels(nxt + next_level(cur), (fuel - 1) as nat) == target,
        ensures
            out@ == target,
        decreases target.len() - out@.len(),
    {
        let ghost queue0 = queue@;
        let state = match queue.pop_front() {
            Some(state) => state,
            None => {
                proof {
                    assert(cur.len() == 0 && nxt.len() == 0);
                    assert(nxt + next_level(cur) =~= Seq::<TN>::empty());
                    assert(out@ + level_events(cur) =~= out@);
                    assert(out@ + Seq::<TravelEvent<TN>>::empty() =~= out@);
                }
                break ;
            },
        };
        proof {
            if cur.len() == 0 {
                assert(nxt + next_level(cur) =~= nxt);
                assert(out@ + level_events(cur) =~= out@);
                assert(nxt.len() > 0);
                assert(nxt[0].size() + 1 < fuel);
                lemma_bfs_step(nxt, (fuel - 1) as nat);
                cur = nxt;
                nxt = Seq::empty();
                fuel = (fuel - 1) as nat;
                assert(nxt + next_level(cur) =~= next_level(cur));
                assert(out@ + (level_events(cur) + bfs_levels(next_level(cur), (fuel - 1) as nat))
                    =~= out@ + level_events(cur) + bfs_levels(next_level(cur), (fuel - 1) as nat));
                assert(queue0 =~= cur + nxt);
            }
            assert(queue0[0] == cur[0]);
            assert(state == cur[0]);
        }
        out.push(TravelEvent::Pop(state));
        let children = state.next_states();
        let ghost out0 = out@;
        let ghost queue1 = queue@;
        let ghost c = children@;
        let mut j: usize = 0;
        while j < children.len()
            invariant
                j <= c.len(),
                c == children@,
                out@ == out0 + pushes(c).take(j as int),
                queue@ == queue1 + kids(c).take(j as int),
            decreases c.len() - j,
        {
            let (key, child) = children[j];
            out.push(TravelEvent::Push(child, key));
            queue.push_back(child);
            proof {
                assert(pushes(c).take(j as int + 1) =~= pushes(c).take(j as int).push(
                    TravelEvent::Push(child, key),
                ));
                assert(kids(c).take(j as int + 1) =~= kids(c).take(j as int).push(child));
                assert(out@ =~= out0 + pushes(c).take(j as int + 1));
                assert(queue@ =~= queue1 + kids(c).take(j as int + 1));
            }
            j += 1;
        }
        proof {
            assert(pushes(c).take(c.len() as int) =~= pushes(c));
            assert(kids(c).take(c.len() as int) =~= kids(c));
            let rest = cur.drop_first();
            let old_out = out0.drop_last();
            assert(out0 =~= old_out.push(TravelEvent::Pop(state)));
            assert(queue1 =~= rest + nxt);
            let nxt2 = nxt + kids(c);
            assert(nxt + next_level(cur) =~= nxt2 + next_level(rest));
            assert(old_out + level_events(cur) =~= out@ + level_events(rest));
            let sizes = Seq::new(c.len(), |i: int| c[i].1.size());
            assert forall|i: int| 0 <= i < nxt2.len() implies (#[trigger] nxt2[i]).wf() && nxt2[i].size()
                + 1 < fuel by {
                if i >= nxt.len() {
                    let a = i - nxt.len();
                    assert(nxt2[i] == c[a].1);
                    lemma_sum_ge(sizes, a);
                    assert(sizes[a] == c[a].1.size());
                    assert(c[a].1.wf());
                } else {
                    assert(nxt2[i] == nxt[i]);
                }
            }
            assert forall|i: int| 0 <= i < rest.len() implies (#[trigger] rest[i]).wf() && rest[i].size()
                < fuel by {
                assert(rest[i] == cur[i + 1]);
            }
            cur = rest;
            nxt = nxt2;
            assert(queue@ =~= cur + nxt);
        }
    }
    out
}

/// The events of a walk by levels begin with those of the first level.
pub proof fn lemma_bfs_step<TN: TrieNodeAlike>(nodes: Seq<TN>, fuel: nat)
    requires
        fuel >= 1,
        nodes.len() > 0,
    ensures
        bfs_levels(nodes, fuel) == level_events(nodes) + bfs_levels(
            next_level(nodes),
            (fuel - 1) as nat,
        ),
{
}

/// Walks the tree below `node` in depth: a node's children are walked one
/// after the other, each with everything below it, before the node is left.
pub fn dfs_travel<TN: TrieNodeAlike>(node: TN) -> (r: Vec<TravelEvent<TN>>)
    requires
        node.wf(),
    ensures
        r@ == seq![TravelEvent::PushRoot(node)] + dfs_from(node, 0, node.size()),
{
    let ghost target = seq![TravelEvent::PushRoot(node)] + dfs_from(node, 0, node.size());
    let mut out: Vec<TravelEvent<TN>> = Vec::new();
    out.push(TravelEvent::PushRoot(node));
    let mut stack: Vec<(TN, Vec<(u32, TN)>, usize)> = Vec::new();
    stack.push((node, node.next_states(), 0));
    let ghost mut frames: Seq<(TN, int, nat)> = seq![(node, 0int, node.size())];
    proof {
        assert(frames.drop_last() =~= Seq::<(TN, int, nat)>::empty());
        assert(dfs_pending(frames.drop_last()) =~= Seq::<TravelEvent<TN>>::empty());
        assert(frames.last() == (node, 0int, node.size()));
        assert(dfs_pending(frames) =~= dfs_from(node, 0, node.size()));
    }
    while stack.len() > 0
        invariant
            frames.len() == stack@.len(),
            forall|i: int|
                0 <= i < stack@.len() ==> {
                    &&& (#[trigger] stack@[i]).0 == frames[i].0
                    &&& stack@[i].2 == frames[i].1
                    &&& stack@[i].1@ == stack@[i].0.children()
                    &&& stack@[i].2 <= stack@[i].1@.len()
                    &&& stack@[i].0.wf()
                    &&& frames[i].2 >= stack@[i].0.size()
                    &&& stack@[i].0.size() == 1 + sum_nat(
                        Seq::new(stack@[i].1@.len(), |a: int| stack@[i].1@[a].1.size()),
                    )
                    &&& forall|a: int| 0 <= a < stack@[i].1@.len() ==> (#[trigger] stack@[i].1@[a]).1.wf()
                },
            out@ + dfs_pending(frames) == target,
        decreases target.len() - out@.len(),
    {
        let top = stack.len() - 1;
        let ghost t = top as int;
        let ghost fr = frames[t];
        let idx = stack[top].2;
        proof {
            assert(frames.last() == fr);
            assert(stack@[t].0 == fr.0);
        }
        if idx < stack[top].1.len() {
            let (key, next_state) = stack[top].1[idx];
            let ghost x = stack@[t].0;
            let ghost c = stack@[t].1@;
            let ghost old_frames = frames;
            let ghost old_stack = stack@;
            out.push(TravelEvent::Push(next_state, key));
            let kids_of_next = next_state.next_states();
            stack[top].2 = idx + 1;
            stack.push((next_state, kids_of_next, 0));
            proof {
                let sizes = Seq::new(c.len(), |a: int| c[a].1.size());
                lemma_sum_ge(sizes, idx as int);
                assert(sizes[idx as int] == next_state.size());
                let f = fr.2;
                assert(f >= 1);
                frames = old_frames.drop_last().push((x, idx as int + 1, f)).push(
                    (next_state, 0int, (f - 1) as nat),
                );
                assert(frames.drop_last() =~= old_frames.drop_last().push((x, idx as int + 1, f)));
                assert(frames.drop_last().drop_last() =~= old_frames.drop_last());
                assert(frames.last() == (next_state, 0int, (f - 1) as nat));
                assert(frames.drop_last().last() == (x, idx as int + 1, f));
                assert(dfs_pending(frames.drop_last()) == dfs_from(x, idx as int + 1, f) + dfs_pending(
                    old_frames.drop_last(),
                ));
                assert(dfs_pending(frames) == dfs_from(next_state, 0, (f - 1) as nat) + (dfs_from(
                    x,
                    idx as int + 1,
                    f,
                ) + dfs_pending(old_frames.drop_last())));
                assert(dfs_from(x, idx as int, f) == seq![TravelEvent::Push(next_state, key)]
                    + dfs_from(next_state, 0, (f - 1) as nat) + dfs_from(x, idx as int + 1, f));
                let o = old_frames.drop_last();
                let prev_out = out@.drop_last();
                assert(out@ =~= prev_out.push(TravelEvent::Push(next_state, key)));
                assert(out@ + dfs_pending(frames) =~= prev_out + dfs_pending(old_frames));
                assert forall|i: int| 0 <= i < stack@.len() implies {
                    &&& (#[trigger] stack@[i]).0 == frames[i].0
                    &&& stack@[i].2 == frames[i].1
                    &&& stack@[i].1@ == stack@[i].0.children()
                    &&& stack@[i].2 <= stack@[i].1@.len()
                    &&& stack@[i].0.wf()
                    &&& frames[i].2 >= stack@[i].0.size()
                    &&& stack@[i].0.size() == 1 + sum_nat(
                        Seq::new(stack@[i].1@.len(), |a: int| stack@[i].1@[a].1.size()),
                    )
                    &&& forall|a: int| 0 <= a < stack@[i].1@.len() ==> (#[trigger] stack@[i].1@[a]).1.wf()
                } by {
                    if i < t {
                        assert(stack@[i] == old_stack[i]);
                        assert(frames[i] == old_frames[i]);
                    } else if i == t {
                        assert(stack@[i].0 == old_stack[t].0);
                        assert(stack@[i].1 == old_stack[t].1);
                    } else {
                        assert(c[idx as int].1.wf());
                    }
                }
            }
        } else {
            let ghost old_frames = frames;
            let ghost old_stack = stack@;
            match stack.pop() {
                Some((cur, _, _)) => {
                    out.push(TravelEvent::Pop(cur));
                    proof {
                        frames = old_frames.drop_last();
                        let prev_out = out@.drop_last();
                        assert(out@ =~= prev_out.push(TravelEvent::Pop(cur)));
                        assert(dfs_from(fr.0, fr.1, fr.2) =~= seq![TravelEvent::Pop(cur)]);
                        assert(out@ + dfs_pending(frames) =~= prev_out + dfs_pending(old_frames));
                        assert forall|i: int| 0 <= i < stack@.len() implies (#[trigger] stack@[i])
                            == old_stack[i] by {}
                    }
                },
                None => {},
            }
        }
    }
    proof {
        assert(frames.len() == 0);
        assert(out@ + dfs_pending(frames) =~= out@);
    }
    out
}

} // verus!
