//! Greedy tokenization: the input is cut from the left into the longest
//! words of the vocabulary; a symbol at which no word begins becomes an
//! unknown token, and unknown tokens that follow each other become one.
use crate::sam::{GeneralSAM, GeneralSamState};
use crate::sam_model::{edge_ok, graph_wf, link_ok, lo, run, step, NodeView};
use crate::sam_order::{lemma_reaches_up, link_reaches};
use crate::sam_paths::{lemma_prefix_read, lemma_reads_word, lemma_suffix_state, reads_tree};
use crate::table::TransitionTable;
use crate::trie::{lemma_trie_vocab, node_token, Trie, TrieNodeID, TrieState};
use crate::trie_alike::{tree_vocab, TrieNodeAlike};
use crate::trie_model::{trie_accepts, trie_run, trie_wf, TrieNodeView};
use crate::utils::rope::RopeUntaggedInner;
use crate::utils::suffix_model::lemma_interval;
use crate::utils::suffixwise::{
    data_exact, data_ready, digests, entry_bounded, lemma_data_exact_at, lp_entry, SuffixInTrie,
    SuffixInTrieData,
};
use crate::utils::vocab::{
    best_upto, greedy_tokens, lemma_best_bound, lemma_best_skip, lemma_best_window, lemma_pushed,
    pushed, tokens_tidy, total_len,
};
use vstd::prelude::*;

verus! {

/// Appends a token to the output, adding it to the last one where both are
/// unknown.
pub fn push_token(res: &mut Vec<(usize, usize)>, token_id: usize, token_len: usize, unk: usize)
    requires
        total_len(old(res)@) + token_len <= usize::MAX,
        tokens_tidy(old(res)@, unk),
        token_len >= 1,
    ensures
        final(res)@ == pushed(old(res)@, token_id, token_len, unk),
        tokens_tidy(final(res)@, unk),
        total_len(final(res)@) == total_len(old(res)@) + token_len,
{
    proof {
        lemma_pushed(res@, token_id, token_len, unk);
    }
    let n = res.len();
    if n > 0 {
        let (last_id, last_len) = res[n - 1];
        if last_id == unk && token_id == unk {
            proof {
                assert(total_len(res@) == total_len(res@.drop_last()) + res@.last().1);
            }
            res.set(n - 1, (unk, last_len + token_len));
            assert(res@ =~= pushed(old(res)@, token_id, token_len, unk));
            return ;
        }
    }
    res.push((token_id, token_len));
}

/// An automaton that a tokenizer holds for itself.
pub struct OwnedGeneralSAM<T: TransitionTable> {
    pub sam: GeneralSAM<T>,
}

/// The automaton of a tokenizer: borrowed, or held by the tokenizer.
pub enum SamHandle<'s, T: TransitionTable> {
    Borrowed(&'s GeneralSAM<T>),
    Owned(OwnedGeneralSAM<T>),
}

impl<'s, T: TransitionTable> SamHandle<'s, T> {
    /// The automaton behind the handle.
    pub open spec fn spec_get(&self) -> &GeneralSAM<T> {
        match self {
            SamHandle::Borrowed(sam) => sam,
            SamHandle::Owned(owned) => &owned.sam,
        }
    }

    /// The automaton behind the handle.
    pub fn get(&self) -> (r: &GeneralSAM<T>)
        ensures
            r == self.spec_get(),
    {
        match self {
            SamHandle::Borrowed(sam) => sam,
            SamHandle::Owned(owned) => &owned.sam,
        }
    }
}

/// The automaton reads every word of the vocabulary.
pub open spec fn words_read<V>(g: Seq<NodeView>, vocab: Map<Seq<u32>, V>) -> bool {
    forall|x: Seq<u32>| #[trigger] vocab.contains_key(x) ==> run(g, 1, x) != 0
}

/// What `f` makes of a node: whatever it returns for it.
pub open spec fn digest_of<TN, D, F: Fn(&TN) -> D>(f: F) -> spec_fn(TN) -> D {
    |tn: TN| choose|d: D| call_ensures(f, (&tn,), d)
}

/// The token and the length that an entry stands for: those of the word
/// that it names, or the unknown token for one symbol.
pub open spec fn entry_token(e: RopeUntaggedInner<Option<SuffixInTrie<TrieNodeID>>>, unk: usize) -> (
    usize,
    usize,
) {
    match e.0 {
        Some(t) => (t.digested_trie_node, t.seq_len),
        None => (unk, 1),
    }
}

/// Where the automaton reads the words of the vocabulary and cannot go on
/// from a part of the input with the next symbol, no word that begins where
/// the part begins reaches beyond the part.
pub proof fn lemma_no_longer_word<V>(
    g: Seq<NodeView>,
    vocab: Map<Seq<u32>, V>,
    seq: Seq<u32>,
    c: int,
    i: int,
)
    requires
        graph_wf(g),
        words_read(g, vocab),
        0 <= c <= i < seq.len(),
        step(g, run(g, 1, seq.subrange(c, i)), seq[i]) == 0,
    ensures
        forall|l: int| i - c < l <= seq.len() - c ==> !vocab.contains_key(#[trigger] seq.subrange(c, c + l)),
{
    assert forall|l: int| i - c < l <= seq.len() - c implies !vocab.contains_key(
        #[trigger] seq.subrange(c, c + l),
    ) by {
        let x = seq.subrange(c, c + l);
        if vocab.contains_key(x) {
            lemma_prefix_read(g, x, i - c + 1);
            let p = x.take(i - c + 1);
            assert(p.drop_last() =~= seq.subrange(c, i));
            assert(p.last() == seq[i]);
        }
    }
}

/// One step of the greedy tokens, read off the entry of a part of the
/// input beyond which no word reaches.
pub proof fn lemma_greedy_step(
    vocab: Map<Seq<u32>, usize>,
    seq: Seq<u32>,
    c: int,
    m: int,
    acc: Seq<(usize, usize)>,
    unk: usize,
)
    requires
        0 <= c,
        1 <= m <= usize::MAX,
        c + m <= seq.len(),
        forall|l: int| m < l <= seq.len() - c ==> !vocab.contains_key(#[trigger] seq.subrange(c, c + l)),
    ensures
        ({
            let t = entry_token(lp_entry(vocab, seq.subrange(c, c + m)), unk);
            &&& 1 <= t.1 <= m
            &&& greedy_tokens(vocab, seq, c, acc, unk) == greedy_tokens(
                vocab,
                seq,
                c + t.1,
                pushed(acc, t.0, t.1, unk),
                unk,
            )
        }),
{
    let w = seq.subrange(c, c + m);
    lemma_best_window(vocab, seq, c, m, m);
    lemma_best_skip(vocab, seq, c, m, seq.len() - c);
    lemma_best_bound(vocab, w, 0, m);
    let b = best_upto(vocab, w, 0, m);
    if b > 0 {
        assert(w.subrange(0, b) =~= seq.subrange(c, c + b));
    }
}

/// A greedy tokenizer on the automaton of a vocabulary: the automaton, and
/// for every state the data that names, for each of its strings, the
/// longest word that the string begins with.
pub struct GreedyTokenizer<'s, T: TransitionTable> {
    sam: SamHandle<'s, T>,
    suffix_data: Vec<SuffixInTrieData<TrieNodeID>>,
    vocab: Ghost<Map<Seq<u32>, usize>>,
}

impl<'s, T: TransitionTable> GreedyTokenizer<'s, T> {
    /// The automaton of the tokenizer.
    pub closed spec fn spec_sam(&self) -> &GeneralSAM<T> {
        self.sam.spec_get()
    }

    /// The data of the states.
    pub closed spec fn spec_data(&self) -> Seq<SuffixInTrieData<TrieNodeID>> {
        self.suffix_data@
    }

    /// The vocabulary that the tokenizer was built for: its words with
    /// their tokens.
    pub closed spec fn vocab(&self) -> Map<Seq<u32>, usize> {
        self.vocab@
    }

    /// The automaton is sound, and the data of every state is in place.
    pub open spec fn wf(&self) -> bool {
        &&& self.spec_sam().wf()
        &&& data_ready(self.spec_sam().nodes(), self.spec_data())
    }

    /// The tokenizer stands on the automaton of its vocabulary: the
    /// automaton reads every word, and the data names, for every string
    /// that the automaton reads, the longest word that the string begins
    /// with.
    pub open spec fn exact(&self) -> bool {
        &&& self.wf()
        &&& words_read(self.spec_sam().nodes(), self.vocab())
        &&& data_exact(self.spec_sam().nodes(), self.spec_data(), self.vocab())
    }

    /// The handle on the automaton.
    pub fn get_sam(&self) -> (r: &SamHandle<'s, T>)
        ensures
            r.spec_get() == self.spec_sam(),
    {
        &self.sam
    }

    /// The automaton.
    pub fn get_sam_ref(&self) -> (r: &GeneralSAM<T>)
        ensures
            r == self.spec_sam(),
    {
        self.sam.get()
    }

    /// A tokenizer on the same automaton, borrowed, with a copy of the data.
    pub fn inner_as_ref(&self) -> (r: GreedyTokenizer<'_, T>)
        requires
            self.wf(),
        ensures
            r.wf(),
            r.spec_sam() == self.spec_sam(),
            r.spec_data() == self.spec_data(),
            r.vocab() == self.vocab(),
    {
        let mut suffix_data: Vec<SuffixInTrieData<TrieNodeID>> = Vec::new();
        let mut i: usize = 0;
        while i < self.suffix_data.len()
            invariant
                i <= self.suffix_data@.len(),
                suffix_data@ == self.suffix_data@.take(i as int),
            decreases self.suffix_data@.len() - i,
        {
            suffix_data.push(self.suffix_data[i].duplicate());
            i += 1;
            assert(suffix_data@ =~= self.suffix_data@.take(i as int));
        }
        assert(self.suffix_data@.take(i as int) =~= self.suffix_data@);
        GreedyTokenizer { sam: SamHandle::Borrowed(self.sam.get()), suffix_data, vocab: self.vocab }
    }

    /// Builds the tokenizer on the automaton behind `sam` for the words of
    /// the tree below `trie_node`, with what `tok` makes of their nodes.
    fn build_with<TN: TrieNodeAlike, F: Fn(&TN) -> TrieNodeID>(
        sam: SamHandle<'s, T>,
        trie_node: TN,
        f: F,
        Ghost(tok): Ghost<spec_fn(TN) -> TrieNodeID>,
    ) -> (r: Self)
        requires
            sam.spec_get().wf(),
            trie_node.wf(),
            forall|tn: TN| call_requires(f, (&tn,)),
        ensures
            r.wf(),
            r.sam == sam,
            r.vocab() == tree_vocab(trie_node, tok),
            digests(f, tok) && reads_tree(sam.spec_get().nodes(), trie_node) ==> r.exact(),
    {
        let suffix_data = SuffixInTrieData::build(sam.get(), trie_node, f);
        proof {
            let g = sam.spec_get().nodes();
            if digests(f, tok) && reads_tree(g, trie_node) {
                assert forall|x: Seq<u32>| #[trigger]
                    tree_vocab(trie_node, tok).contains_key(x) implies run(g, 1, x) != 0 by {
                    lemma_reads_word(g, trie_node, x);
                }
            }
        }
        Self { sam, suffix_data, vocab: Ghost(tree_vocab(trie_node, tok)) }
    }

    /// Builds the tokenizer that holds the automaton `sam` itself. The
    /// words of the vocabulary are the paths of the tree below `trie_node`
    /// that end at accepting nodes; the token of a word is what `f` returns
    /// for its node. Where `f` has one result for each node and `sam` reads
    /// the tree, the tokenizer stands on the automaton of its vocabulary.
    pub fn build_from_sam<TN: TrieNodeAlike, F: Fn(&TN) -> TrieNodeID>(
        sam: GeneralSAM<T>,
        trie_node: TN,
        f: F,
    ) -> (r: Self)
        requires
            sam.wf(),
            trie_node.wf(),
            forall|tn: TN| call_requires(f, (&tn,)),
        ensures
            r.wf(),
            *r.spec_sam() == sam,
            r.vocab() == tree_vocab(trie_node, digest_of(f)),
            digests(f, digest_of(f)) && reads_tree(sam.nodes(), trie_node) ==> r.exact(),
    {
        Self::build_with(SamHandle::Owned(OwnedGeneralSAM { sam }), trie_node, f, Ghost(digest_of(f)))
    }

    /// Builds the tokenizer of the words of a trie that holds the automaton
    /// `sam` itself; the token of a word is the index of the node at which
    /// it ends.
    pub fn build_from_sam_and_trie<TT: TransitionTable>(sam: GeneralSAM<T>, trie_state: TrieState<'_, TT>) -> (r:
        Self)
        requires
            sam.wf(),
            trie_state.wf(),
        ensures
            r.wf(),
            *r.spec_sam() == sam,
            r.vocab() == tree_vocab(trie_state, node_token::<TT>()),
            trie_state.node_id == 1 ==> r.vocab() == trie_vocab(trie_state.trie.nodes()),
            reads_tree(sam.nodes(), trie_state) ==> r.exact(),
    {
        let f = |tn: &TrieState<'_, TT>| -> (id: TrieNodeID)
            ensures
                id == tn.node_id,
            { tn.node_id };
        proof {
            if trie_state.node_id == 1 {
                lemma_trie_vocab(trie_state);
            }
        }
        Self::build_with(
            SamHandle::Owned(OwnedGeneralSAM { sam }),
            trie_state,
            f,
            Ghost(node_token::<TT>()),
        )
    }

    /// The data of the states.
    pub fn get_suffix_data(&self) -> (r: &Vec<SuffixInTrieData<TrieNodeID>>)
        ensures
            r@ == self.spec_data(),
    {
        &self.suffix_data
    }

    /// Builds the tokenizer of the vocabulary whose words are the paths of
    /// the tree below `trie_node` that end at accepting nodes; the token of
    /// a word is what `f` returns for its node. Where `f` has one result
    /// for each node and `sam` reads the tree, the tokenizer stands on the
    /// automaton of its vocabulary.
    pub fn build<TN: TrieNodeAlike, F: Fn(&TN) -> TrieNodeID>(
        sam: &'s GeneralSAM<T>,
        trie_node: TN,
        f: F,
    ) -> (r: Self)
        requires
            sam.wf(),
            trie_node.wf(),
            forall|tn: TN| call_requires(f, (&tn,)),
        ensures
            r.wf(),
            r.spec_sam() == sam,
            r.vocab() == tree_vocab(trie_node, digest_of(f)),
            digests(f, digest_of(f)) && reads_tree(sam.nodes(), trie_node) ==> r.exact(),
    {
        Self::build_with(SamHandle::Borrowed(sam), trie_node, f, Ghost(digest_of(f)))
    }

    /// Builds the tokenizer of the words of a trie; the token of a word is
    /// the index of the node at which it ends.
    pub fn build_from_trie<TT: TransitionTable>(sam: &'s GeneralSAM<T>, trie_state: TrieState<'_, TT>) -> (r:
        Self)
        requires
            sam.wf(),
            trie_state.wf(),
        ensures
            r.wf(),
            r.spec_sam() == sam,
            r.vocab() == tree_vocab(trie_state, node_token::<TT>()),
            trie_state.node_id == 1 ==> r.vocab() == trie_vocab(trie_state.trie.nodes()),
            reads_tree(sam.nodes(), trie_state) ==> r.exact(),
    {
        let f = |tn: &TrieState<'_, TT>| -> (id: TrieNodeID)
            ensures
                id == tn.node_id,
            { tn.node_id };
        proof {
            if trie_state.node_id == 1 {
                lemma_trie_vocab(trie_state);
            }
        }
        Self::build_with(SamHandle::Borrowed(sam), trie_state, f, Ghost(node_token::<TT>()))
    }

    /// One step back: emits the token of the run of length `cur_len` that
    /// ends at `cur_state`, takes its length off the run, and moves up the
    /// suffix links to the state of what is left. The run is the part of
    /// `seq` that ends before `i`.
    fn pop_buffer<'a>(
        &'a self,
        cur_len: &mut usize,
        cur_state: &mut GeneralSamState<'a, T>,
        res: &mut Vec<(usize, usize)>,
        unk_token_id: usize,
        Ghost(seq): Ghost<Seq<u32>>,
        Ghost(i): Ghost<int>,
    )
        requires
            self.wf(),
            old(cur_state).sam == self.spec_sam(),
            *old(cur_len) > 0,
            1 <= old(cur_state).node_id < self.spec_sam().nodes().len(),
            lo(self.spec_sam().nodes(), old(cur_state).node_id as int) < *old(cur_len)
                <= self.spec_sam().nodes()[old(cur_state).node_id as int].len,
            tokens_tidy(old(res)@, unk_token_id),
            total_len(old(res)@) + *old(cur_len) <= usize::MAX,
            *old(cur_len) <= i <= seq.len(),
            self.exact() ==> run(self.spec_sam().nodes(), 1, seq.subrange(i - *old(cur_len), i)) == old(cur_state).node_id,
            self.exact() ==> forall|l: int|
                *old(cur_len) < l <= seq.len() - (i - *old(cur_len)) ==> !self.vocab().contains_key(
                    #[trigger] seq.subrange(i - *old(cur_len), i - *old(cur_len) + l),
                ),
        ensures
            final(cur_state).sam == self.spec_sam(),
            *final(cur_len) < *old(cur_len),
            1 <= final(cur_state).node_id < self.spec_sam().nodes().len(),
            lo(self.spec_sam().nodes(), final(cur_state).node_id as int) < *final(cur_len)
                <= self.spec_sam().nodes()[final(cur_state).node_id as int].len,
            tokens_tidy(final(res)@, unk_token_id),
            total_len(final(res)@) + *final(cur_len) == total_len(old(res)@) + *old(cur_len),
            self.exact() ==> run(self.spec_sam().nodes(), 1, seq.subrange(i - *final(cur_len), i)) == final(cur_state).node_id,
            self.exact() ==> greedy_tokens(self.vocab(), seq, i - *old(cur_len), old(res)@, unk_token_id)
                == greedy_tokens(self.vocab(), seq, i - *final(cur_len), final(res)@, unk_token_id),
    {
        let ghost g = self.spec_sam().nodes();
        let ghost x = cur_state.node_id as int;
        let ghost c = i - *cur_len;
        let ghost w = seq.subrange(c, i);
        let ghost m = *cur_len as int;
        proof {
            lemma_interval(g, x);
            assert(self.suffix_data@[x].wf());
        }
        let inner_data = self.suffix_data[cur_state.node_id].get(*cur_len);
        let (token_id, token_len) = match inner_data {
            Some(entry) => {
                proof {
                    let k = *cur_len - self.suffix_data@[x].spec_min();
                    assert(entry == self.suffix_data@[x].entries()[k]);
                    assert(entry_bounded(self.suffix_data@[x].entries()[k], lo(g, x) + 1 + k));
                }
                match entry.into_inner() {
                    Some(token_info) => (token_info.digested_trie_node, token_info.seq_len),
                    None => (unk_token_id, 1),
                }
            },
            None => (unk_token_id, 1),
        };
        proof {
            if self.exact() {
                lemma_data_exact_at(g, self.spec_data(), self.vocab(), w);
                lemma_greedy_step(self.vocab(), seq, c, m, res@, unk_token_id);
                assert(inner_data == Some(lp_entry(self.vocab(), w)));
                assert((token_id, token_len) == entry_token(lp_entry(self.vocab(), w), unk_token_id));
            }
        }
        *cur_len = *cur_len - token_len;
        push_token(res, token_id, token_len, unk_token_id);
        proof {
            assert(link_reaches(g, x, x));
        }
        loop
            invariant
                self.wf(),
                g == self.spec_sam().nodes(),
                cur_state.sam == self.spec_sam(),
                1 <= cur_state.node_id < g.len(),
                1 <= x < g.len(),
                *cur_len <= g[cur_state.node_id as int].len,
                link_reaches(g, x, cur_state.node_id as int),
            ensures
                lo(g, cur_state.node_id as int) < *cur_len,
                link_reaches(g, x, cur_state.node_id as int),
            decreases g[cur_state.node_id as int].len,
        {
            let ghost y = cur_state.node_id as int;
            proof {
                lemma_interval(g, y);
                assert(self.suffix_data@[y].wf());
            }
            if *cur_len >= self.suffix_data[cur_state.node_id].get_min_suf_len() {
                break ;
            }
            proof {
                assert(y != 1);
                assert(link_ok(g, y));
                lemma_reaches_up(g, x, y);
            }
            cur_state.goto_suffix_parent();
        }
        proof {
            if self.exact() {
                lemma_suffix_state(g, w, token_len as int, cur_state.node_id as int);
                assert(w.skip(token_len as int) =~= seq.subrange(i - *cur_len, i));
            }
        }
    }

    /// Cuts `seq` into tokens: pairs of a token and the number of symbols
    /// that it covers. A symbol at which no word of the vocabulary begins is
    /// covered by the token `unk_token_id`, which also covers what follows
    /// it in the same way. On the automaton of its vocabulary the tokenizer
    /// gives the greedy tokens of `seq`: at every position the longest word
    /// that begins there.
    pub fn tokenize(&self, seq: &[u32], unk_token_id: &usize) -> (res: Vec<(usize, usize)>)
        requires
            self.wf(),
        ensures
            total_len(res@) == seq@.len(),
            tokens_tidy(res@, *unk_token_id),
            self.exact() ==> res@ == greedy_tokens(
                self.vocab(),
                seq@,
                0,
                Seq::empty(),
                *unk_token_id,
            ),
    {
        let ghost g = self.spec_sam().nodes();
        let ghost vocab = self.vocab();
        let ghost goal = greedy_tokens(vocab, seq@, 0, Seq::empty(), *unk_token_id);
        let unk = *unk_token_id;
        let mut res: Vec<(usize, usize)> = Vec::new();
        let mut cur_state = self.get_sam_ref().get_root_state();
        let mut cur_len: usize = 0;
        let mut i: usize = 0;
        proof {
            lemma_interval(g, 1);
            assert(seq@.subrange(0, 0) =~= Seq::<u32>::empty());
        }
        while i < seq.len()
            invariant
                i <= seq@.len(),
                self.wf(),
                g == self.spec_sam().nodes(),
                vocab == self.vocab(),
                goal == greedy_tokens(vocab, seq@, 0, Seq::empty(), unk),
                unk == *unk_token_id,
                cur_state.sam == self.spec_sam(),
                1 <= cur_state.node_id < g.len(),
                lo(g, cur_state.node_id as int) < cur_len <= g[cur_state.node_id as int].len,
                tokens_tidy(res@, unk),
                total_len(res@) + cur_len == i,
                self.exact() ==> run(g, 1, seq@.subrange(i - cur_len, i as int)) == cur_state.node_id,
                self.exact() ==> goal == greedy_tokens(vocab, seq@, i - cur_len, res@, unk),
            decreases seq@.len() - i,
        {
            let key = seq[i];
            let mut nxt_state = cur_state.get_non_nil_trans(&key);
            while cur_len > 0 && nxt_state.is_none()
                invariant
                    i < seq@.len(),
                    key == seq@[i as int],
                    self.wf(),
                    g == self.spec_sam().nodes(),
                    vocab == self.vocab(),
                    cur_state.sam == self.spec_sam(),
                    1 <= cur_state.node_id < g.len(),
                    lo(g, cur_state.node_id as int) < cur_len <= g[cur_state.node_id as int].len,
                    tokens_tidy(res@, unk),
                    total_len(res@) + cur_len == i,
                    nxt_state is Some <==> g[cur_state.node_id as int].trans.contains_key(key),
                    nxt_state matches Some(next) ==> next.sam == self.spec_sam() && next.node_id
                        == g[cur_state.node_id as int].trans[key],
                    self.exact() ==> run(g, 1, seq@.subrange(i - cur_len, i as int)) == cur_state.node_id,
                    self.exact() ==> goal == greedy_tokens(vocab, seq@, i - cur_len, res@, unk),
                decreases cur_len,
            {
                proof {
                    if self.exact() {
                        lemma_no_longer_word(g, vocab, seq@, i - cur_len, i as int);
                    }
                }
                self.pop_buffer(&mut cur_len, &mut cur_state, &mut res, unk, Ghost(seq@), Ghost(i as int));
                nxt_state = cur_state.get_non_nil_trans(&key);
            }
            match nxt_state {
                Some(nxt) => {
                    proof {
                        let x = cur_state.node_id as int;
                        assert(edge_ok(g, x, key));
                        let w = g[x].trans[key] as int;
                        assert(g[w].len + 2 <= g.len());
                        assert(seq@.subrange(i - cur_len, i + 1).drop_last() =~= seq@.subrange(
                            i - cur_len,
                            i as int,
                        ));
                    }
                    cur_state = nxt;
                    cur_len = cur_len + 1;
                },
                None => {
                    proof {
                        if self.exact() {
                            let c = i as int;
                            assert(seq@.subrange(c, c) =~= Seq::<u32>::empty());
                            lemma_no_longer_word(g, vocab, seq@, c, c);
                            lemma_best_skip(vocab, seq@, c, 0, seq@.len() - c);
                            assert(seq@.subrange(c + 1, c + 1) =~= Seq::<u32>::empty());
                        }
                    }
                    push_token(&mut res, unk, 1, unk);
                },
            }
            i += 1;
        }
        while cur_len > 0
            invariant
                self.wf(),
                g == self.spec_sam().nodes(),
                vocab == self.vocab(),
                i == seq@.len(),
                cur_state.sam == self.spec_sam(),
                1 <= cur_state.node_id < g.len(),
                lo(g, cur_state.node_id as int) < cur_len <= g[cur_state.node_id as int].len,
                tokens_tidy(res@, unk),
                total_len(res@) + cur_len == seq@.len(),
                seq@.len() <= usize::MAX,
                self.exact() ==> run(g, 1, seq@.subrange(i - cur_len, i as int)) == cur_state.node_id,
                self.exact() ==> goal == greedy_tokens(vocab, seq@, i - cur_len, res@, unk),
            decreases cur_len,
        {
            self.pop_buffer(&mut cur_len, &mut cur_state, &mut res, unk, Ghost(seq@), Ghost(i as int));
        }
        res
    }
}

/// The words of a trie with their tokens: every word that is not empty,
/// with the index of the node at which it ends.
pub open spec fn trie_vocab(t: Seq<TrieNodeView>) -> Map<Seq<u32>, usize> {
    Map::new(|x: Seq<u32>| x.len() > 0 && trie_accepts(t, x), |x: Seq<u32>| trie_run(t, 1, x) as usize)
}

/// Once the walk has left the trie, no longer word is found.
pub proof fn lemma_best_after_nil(t: Seq<TrieNodeView>, seq: Seq<u32>, cur: int, a: int, j: int)
    requires
        trie_wf(t),
        0 <= cur,
        1 <= a <= j,
        cur + j <= seq.len(),
        trie_run(t, 1, seq.subrange(cur, cur + a)) == 0,
    ensures
        best_upto(trie_vocab(t), seq, cur, j) == best_upto(trie_vocab(t), seq, cur, a - 1),
        trie_run(t, 1, seq.subrange(cur, cur + j)) == 0,
    decreases j - a,
{
    if j > a {
        lemma_best_after_nil(t, seq, cur, a, j - 1);
        assert(seq.subrange(cur, cur + j).drop_last() =~= seq.subrange(cur, cur + j - 1));
        assert(t[0].trans =~= Map::<u32, usize>::empty());
    }
}

/// The two tokenizers agree. A tokenizer that stands on the automaton of
/// the words of a trie gives, for every input and with the number of nodes
/// of the trie for the unknown token, the tokens that the tokenizer on the
/// trie alone gives: `by_automaton` is what `GreedyTokenizer::tokenize`
/// returns, `by_trie` what `greedy_tokenize_with_trie` returns.
pub proof fn lemma_tokenizers_agree<T: TransitionTable, TT: TransitionTable>(
    tokenizer: &GreedyTokenizer<'_, T>,
    trie: &Trie<TT>,
    seq: Seq<u32>,
    by_automaton: Seq<(usize, usize)>,
    by_trie: Seq<(usize, usize)>,
)
    requires
        trie.wf(),
        tokenizer.exact(),
        tokenizer.vocab() == trie_vocab(trie.nodes()),
        by_automaton == greedy_tokens(
            tokenizer.vocab(),
            seq,
            0,
            Seq::empty(),
            trie.nodes().len() as usize,
        ),
        by_trie == greedy_tokens(
            trie_vocab(trie.nodes()),
            seq,
            0,
            Seq::empty(),
            trie.nodes().len() as usize,
        ),
    ensures
        by_automaton == by_trie,
{
}

/// A greedy tokenizer that needs the trie alone: at every position it walks
/// the trie as far as the input goes along, and takes the longest word that
/// it passed. The unknown token is the number of nodes of the trie.
pub fn greedy_tokenize_with_trie<T: TransitionTable>(trie: &Trie<T>, seq: &[u32]) -> (res: Vec<
    (usize, usize),
>)
    requires
        trie.wf(),
    ensures
        res@ == greedy_tokens(
            trie_vocab(trie.nodes()),
            seq@,
            0,
            Seq::empty(),
            trie.nodes().len() as usize,
        ),
        total_len(res@) == seq@.len(),
        tokens_tidy(res@, trie.nodes().len() as usize),
{
    let unk_token_id = trie.num_of_nodes();
    let ghost t = trie.nodes();
    let n = seq.len();
    let mut res: Vec<(usize, usize)> = Vec::new();
    let mut cur: usize = 0;
    while cur < n
        invariant
            cur <= n,
            n == seq@.len(),
            t == trie.nodes(),
            trie.wf(),
            unk_token_id == t.len(),
            tokens_tidy(res@, unk_token_id),
            total_len(res@) == cur,
            greedy_tokens(trie_vocab(t), seq@, 0, Seq::empty(), unk_token_id) == greedy_tokens(
                trie_vocab(t),
                seq@,
                cur as int,
                res@,
                unk_token_id,
            ),
        decreases n - cur,
    {
        let mut best: Option<(usize, usize)> = None;
        let mut cur_state = trie.get_root_state();
        let mut i: usize = cur;
        let mut lost: bool = false;
        proof {
            assert(seq@.subrange(cur as int, cur as int) =~= Seq::<u32>::empty());
        }
        while i < n
            invariant_except_break
                !lost,
                cur_state.node_id == trie_run(t, 1, seq@.subrange(cur as int, i as int)),
                cur_state.node_id != 0,
                cur_state.node_id < t.len(),
                i > cur ==> best_upto(trie_vocab(t), seq@, cur as int, i - cur - 1) == (match best {
                    Some(b) => b.1 as int,
                    None => 0,
                }),
                i == cur ==> best is None,
            invariant
                cur <= i <= n,
                n == seq@.len(),
                t == trie.nodes(),
                trie.wf(),
                cur_state.trie == trie,
                best matches Some(b) ==> 1 <= b.1 <= i - cur && b.0 == trie_run(
                    t,
                    1,
                    seq@.subrange(cur as int, cur + b.1),
                ) && trie_accepts(t, seq@.subrange(cur as int, cur + b.1)),
            ensures
                cur <= i <= n,
                lost ==> i < n && cur_state.node_id == 0 && trie_run(
                    t,
                    1,
                    seq@.subrange(cur as int, i + 1),
                ) == 0
                    && best_upto(trie_vocab(t), seq@, cur as int, i - cur) == (match best {
                    Some(b) => b.1 as int,
                    None => 0,
                }),
                !lost ==> i == n && cur_state.node_id == trie_run(
                    t,
                    1,
                    seq@.subrange(cur as int, n as int),
                ) && cur_state.node_id != 0 && cur_state.node_id < t.len() && (i > cur ==> best_upto(
                    trie_vocab(t),
                    seq@,
                    cur as int,
                    i - cur - 1,
                ) == (match best {
                    Some(b) => b.1 as int,
                    None => 0,
                })) && (i == cur ==> best is None),
                cur_state.trie == trie,
                best matches Some(b) ==> 1 <= b.1 <= i - cur && b.0 == trie_run(
                    t,
                    1,
                    seq@.subrange(cur as int, cur + b.1),
                ) && trie_accepts(t, seq@.subrange(cur as int, cur + b.1)),
            decreases n - i,
        {
            proof {
                if cur_state.node_id == 1 && i > cur {
                    crate::trie_model::lemma_path_unique(
                        t,
                        seq@.subrange(cur as int, i as int),
                        Seq::empty(),
                    );
                }
                if i == cur {
                    assert(cur_state.node_id == 1);
                }
            }
            if !cur_state.is_root() && TrieNodeAlike::is_accepting(&cur_state) {
                best = Some((cur_state.node_id, i - cur));
            }
            let key = seq[i];
            cur_state.goto(&key);
            proof {
                assert(seq@.subrange(cur as int, i + 1).drop_last() =~= seq@.subrange(
                    cur as int,
                    i as int,
                ));
                lemma_run_in_range_from_root(t, seq@.subrange(cur as int, i + 1));
            }
            if cur_state.is_nil() {
                lost = true;
                break ;
            }
            i += 1;
        }
        proof {
            let c = cur as int;
            if lost {
                lemma_best_after_nil(t, seq@, c, i - c + 1, n - c);
            } else {
                if cur_state.node_id == 1 && n > cur {
                    crate::trie_model::lemma_path_unique(
                        t,
                        seq@.subrange(cur as int, n as int),
                        Seq::empty(),
                    );
                }
            }
        }
        if !cur_state.is_root() && !cur_state.is_nil() && TrieNodeAlike::is_accepting(&cur_state) {
            best = Some((cur_state.node_id, n - cur));
        }
        proof {
            lemma_best_bound(trie_vocab(t), seq@, cur as int, n - cur);
            assert(best_upto(trie_vocab(t), seq@, cur as int, n - cur) == (match best {
                Some(b) => b.1 as int,
                None => 0,
            }));
        }
        match best {
            Some((best_token_id, best_token_len)) => {
                push_token(&mut res, best_token_id, best_token_len, unk_token_id);
                cur += best_token_len;
            },
            None => {
                push_token(&mut res, unk_token_id, 1, unk_token_id);
                cur += 1;
            },
        }
    }
    res
}

/// A walk from the root through a sound trie stays among its nodes.
pub proof fn lemma_run_in_range_from_root(t: Seq<TrieNodeView>, w: Seq<u32>)
    requires
        trie_wf(t),
    ensures
        0 <= trie_run(t, 1, w) < t.len(),
{
    crate::trie_model::lemma_run_in_range(t, 1, w);
}

} // verus!
