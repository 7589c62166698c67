use general_sam::sam::{symbols_of_bytes, symbols_of_str, GeneralSAM, GeneralSamState};
use general_sam::table::{
    bisect_unstable, BTreeTransTable, BisectTable, ConstructiveTransitionTable, HashTransTable,
    SmallAlphabet, TransitionTable, WholeAlphabetTable,
};
use general_sam::trie::Trie;
use general_sam::trie_alike::{bfs_travel, dfs_travel, IterAsChain, TravelEvent, TrieNodeAlike};
use general_sam::utils::rope::{RopeBase, RopeUntaggedInner};
use general_sam::utils::suffixwise::{SuffixInTrieData, SuffixwiseData};
use general_sam::utils::tokenize::{greedy_tokenize_with_trie, push_token, GreedyTokenizer};

fn feed<'a>(sam: &'a GeneralSAM<BTreeTransTable>, text: &str) -> GeneralSamState<'a, BTreeTransTable> {
    let mut state = sam.get_root_state();
    state.feed_chars(text);
    state
}

#[test]
fn automaton_of_the_empty_sequence() {
    let sam = GeneralSAM::<BTreeTransTable>::construct_from_chars("");
    assert_eq!(sam.num_of_nodes(), 2);
    assert!(sam.get_root_state().is_accepting());
    assert!(feed(&sam, "a").is_nil());
    assert!(feed(&sam, "xyz").is_nil());
    assert_eq!(sam.get_topo_sorted_node_ids(), &vec![1]);
    assert_eq!(sam.get_topo_and_suf_len_sorted_node_ids(), &vec![1]);
}

#[test]
fn automaton_of_a_trie_with_the_empty_word_only() {
    let mut trie = Trie::<BTreeTransTable>::default();
    assert_eq!(trie.insert(&[]), 1);
    let sam = GeneralSAM::<BTreeTransTable>::construct_from_trie(trie.get_root_state());
    assert_eq!(sam.num_of_nodes(), 2);
    assert!(sam.get_root_state().is_accepting());
    assert!(feed(&sam, "a").is_nil());
}

#[test]
fn the_root_accepts_as_soon_as_there_is_a_word() {
    let trie = Trie::<BTreeTransTable>::default();
    let sam = GeneralSAM::<BTreeTransTable>::construct_from_trie(trie.get_root_state());
    assert_eq!(sam.num_of_nodes(), 2);
    assert!(!sam.get_root_state().is_accepting());
    let mut trie = Trie::<BTreeTransTable>::default();
    trie.insert_chars("a");
    let sam = GeneralSAM::<BTreeTransTable>::construct_from_trie(trie.get_root_state());
    assert!(sam.get_root_state().is_accepting());
    assert!(feed(&sam, "a").is_accepting());
    assert!(!sam.get_state(0).is_accepting());
}

#[test]
fn single_string_scenario() {
    let sam = GeneralSAM::<BTreeTransTable>::construct_from_chars("abcbc");
    assert!(feed(&sam, "c").is_accepting());
    assert!(feed(&sam, "bc").is_accepting());
    assert!(feed(&sam, "cbc").is_accepting());
    assert!(feed(&sam, "abcbc").is_accepting());
    assert!(!feed(&sam, "b").is_accepting() && !feed(&sam, "b").is_nil());
    assert!(feed(&sam, "bcbc").is_accepting());
    assert!(feed(&sam, "bcbcbc").is_nil());
    assert!(!feed(&sam, "bcb").is_accepting());
    assert!(feed(&sam, "").is_root());
    assert!(feed(&sam, "").is_accepting());
    assert_eq!(sam.num_of_nodes(), 9);
}

#[test]
fn every_substring_is_read_and_suffixes_are_accepted() {
    let text = "abracadabra";
    let sam = GeneralSAM::<BTreeTransTable>::construct_from_bytes(text.as_bytes());
    for i in 0..=text.len() {
        for j in i..=text.len() {
            let mut state = sam.get_root_state();
            state.feed_bytes(text[i..j].as_bytes());
            assert!(!state.is_nil());
            assert_eq!(state.is_accepting(), text.ends_with(&text[i..j]));
        }
    }
}

#[test]
fn vocabulary_trie_scenario() {
    let mut trie = Trie::<BTreeTransTable>::default();
    trie.insert_chars("hello");
    trie.insert_chars("Chielo");
    let sam = GeneralSAM::<BTreeTransTable>::construct_from_trie(trie.get_root_state());
    assert!(feed(&sam, "lo").is_accepting());
    assert!(feed(&sam, "ello").is_accepting());
    assert!(feed(&sam, "elo").is_accepting());
    assert!(!feed(&sam, "el").is_accepting() && !feed(&sam, "el").is_nil());
    assert!(feed(&sam, "bye").is_nil() && !feed(&sam, "bye").is_accepting());
}

#[test]
fn cursor_moves() {
    let sam = GeneralSAM::<BTreeTransTable>::construct_from_chars("abcbc");
    let mut state = sam.get_root_state();
    assert_eq!(state.get_node().unwrap().max_suffix_len(), 0);
    state.goto(&('a' as u32));
    assert!(!state.is_nil());
    assert_eq!(state.get_node().unwrap().max_suffix_len(), 1);
    assert_eq!(state.get_node().unwrap().get_suffix_parent_id(), 1);
    assert!(state.get_non_nil_trans(&('b' as u32)).is_some());
    assert!(state.get_non_nil_trans(&('z' as u32)).is_none());
    state.goto_suffix_parent();
    assert!(state.is_root());
    state.goto_suffix_parent();
    assert!(state.is_nil());
    state.goto_suffix_parent();
    assert!(state.is_nil());
    state.goto(&('a' as u32));
    assert!(state.is_nil());
    let far = sam.get_state(1000);
    assert!(far.is_nil());
    assert!(sam.get_node(1000).is_none());
    let outside = GeneralSamState::new(&sam, 1000);
    assert!(!outside.is_accepting());
    assert!(outside.get_node().is_none());
    assert_eq!(outside.inner_as_ref().node_id, 1000);
    assert_eq!(state.get_sam_ref().num_of_nodes(), sam.num_of_nodes());
    let mut by_symbols = sam.get_root_state();
    by_symbols.feed(&symbols_of_str("bcb"));
    let mut by_ref = sam.get_root_state();
    by_ref.feed_ref(&symbols_of_str("bcb"));
    assert_eq!(by_symbols.node_id, by_ref.node_id);
    assert_eq!(sam.get_root_node().max_suffix_len(), 0);
}

#[test]
fn orders_of_a_small_automaton() {
    let sam = GeneralSAM::<BTreeTransTable>::construct_from_utf32(&symbols_of_str("abcbc"));
    let n = sam.num_of_nodes();
    for order in [sam.get_topo_sorted_node_ids(), sam.get_topo_and_suf_len_sorted_node_ids()] {
        assert_eq!(order.len(), n - 1);
        assert_eq!(order[0], 1);
        let mut rank = vec![usize::MAX; n];
        for (k, id) in order.iter().enumerate() {
            assert_eq!(rank[*id], usize::MAX);
            rank[*id] = k;
        }
        for id in order.iter() {
            let node = sam.get_node(*id).unwrap();
            for (_, next) in TransitionTable::iter(node.get_trans()) {
                assert!(rank[*id] < rank[next]);
            }
        }
    }
    let sorted = sam.get_topo_and_suf_len_sorted_node_ids();
    for pos in 0..sorted.len() - 1 {
        let a = sam.get_node(sorted[pos]).unwrap();
        let b = sam.get_node(sorted[pos + 1]).unwrap();
        assert!(a.max_suffix_len() <= b.max_suffix_len());
    }
}

#[test]
fn trie_insertions() {
    let mut trie = Trie::<BTreeTransTable>::default();
    assert_eq!(trie.num_of_nodes(), 2);
    let a = trie.insert(&symbols_of_str("ab"));
    assert_eq!(a, 3);
    assert_eq!(trie.num_of_nodes(), 4);
    let again = trie.insert(&symbols_of_str("ab"));
    assert_eq!(again, a);
    assert_eq!(trie.num_of_nodes(), 4);
    let shorter = trie.insert_chars("a");
    assert_eq!(shorter, 2);
    let other = trie.insert_bytes("ac".as_bytes());
    assert_eq!(other, 4);
    assert!(trie.get_node(2).unwrap().is_accepting());
    assert!(trie.get_node(2).unwrap().accept);
    assert_eq!(trie.get_node(3).unwrap().get_parent(), 2);
    assert_eq!(trie.get_root_node().get_parent(), 0);
    assert!(!trie.get_root_node().accept);
    assert!(trie.get_node(9).is_none());
    assert_eq!(TransitionTable::get(trie.get_node(2).unwrap().get_trans(), &('b' as u32)), Some(3));

    let mut state = trie.get_root_state();
    assert!(state.is_root());
    state.feed(&symbols_of_str("ab"));
    assert_eq!(state.node_id, 3);
    assert!(TrieNodeAlike::is_accepting(&state));
    state.goto_parent();
    assert_eq!(state.node_id, 2);
    state.goto(&('z' as u32));
    assert!(state.is_nil());
    state.goto_parent();
    assert!(state.is_nil());
    let mut state = trie.get_state(77);
    assert!(state.is_nil());
    state.feed_ref(&symbols_of_str("a"));
    assert!(state.is_nil());
    let mut state = trie.get_root_state().inner_as_ref();
    state.feed_slice(&symbols_of_str("ac"));
    assert_eq!(state.node_id, 4);
    assert!(state.get_node().is_some());
}

#[test]
fn tables_agree_with_each_other() {
    let pairs: Vec<(u32, usize)> = vec![(200, 7), (3, 9), (97, 2), (0, 5)];
    let tree = BTreeTransTable::from_kv_iter(&pairs);
    let hash = HashTransTable::from_kv_iter(&pairs);
    let bisect = BisectTable::from_kv_iter(&pairs);
    let whole = WholeAlphabetTable::<u8>::from_kv_iter(&pairs);
    for key in 0u32..300 {
        let expected = pairs.iter().find(|p| p.0 == key).map(|p| p.1);
        assert_eq!(TransitionTable::get(&tree, &key), expected);
        assert_eq!(TransitionTable::get(&hash, &key), expected);
        assert_eq!(bisect.get(&key), expected);
        assert_eq!(whole.get(&key), expected);
        assert_eq!(TransitionTable::contains_key(&tree, &key), expected.is_some());
        assert_eq!(bisect.contains_key(&key), expected.is_some());
        assert_eq!(whole.contains_key(&key), expected.is_some());
    }
    let sorted = vec![(0, 5), (3, 9), (97, 2), (200, 7)];
    assert_eq!(TransitionTable::iter(&tree), sorted);
    assert_eq!(bisect.iter(), sorted);
    assert_eq!(whole.iter(), sorted);
    let mut from_hash = TransitionTable::iter(&hash);
    from_hash.sort();
    assert_eq!(from_hash, sorted);
    assert_eq!(bisect.transitions(), vec![5, 9, 2, 7]);
    assert_eq!(whole.transitions(), vec![5, 9, 2, 7]);

    let mut built = WholeAlphabetTable::<bool>::empty();
    assert_eq!(built.iter(), vec![]);
    built.insert(1, 4);
    built.insert(1, 6);
    assert_eq!(built.iter(), vec![(1, 6)]);
    assert_eq!(built.duplicate().iter(), vec![(1, 6)]);
    let mut tree = BTreeTransTable::empty();
    ConstructiveTransitionTable::insert(&mut tree, 5, 1);
    ConstructiveTransitionTable::insert(&mut tree, 5, 2);
    assert_eq!(TransitionTable::iter(&tree.duplicate()), vec![(5, 2)]);
}

#[test]
fn halving_search() {
    let pairs: Vec<(u32, usize)> = vec![(1, 10), (4, 40), (9, 90), (16, 160), (25, 250)];
    assert_eq!(bisect_unstable(&pairs, &1), Some(0));
    assert_eq!(bisect_unstable(&pairs, &9), Some(2));
    assert_eq!(bisect_unstable(&pairs, &25), Some(4));
    assert_eq!(bisect_unstable(&pairs, &0), None);
    assert_eq!(bisect_unstable(&pairs, &10), None);
    assert_eq!(bisect_unstable(&pairs, &26), None);
    assert_eq!(bisect_unstable(&[], &3), None);
}

#[test]
fn small_alphabets() {
    assert_eq!(<bool as SmallAlphabet>::size_log_2(), 1);
    assert_eq!(<u8 as SmallAlphabet>::size_log_2(), 8);
    assert!(!<bool as SmallAlphabet>::from_usize(4));
    assert!(<bool as SmallAlphabet>::from_usize(5));
    assert_eq!(<u8 as SmallAlphabet>::from_usize(300), 44);
    assert_eq!(<u8 as SmallAlphabet>::from_usize(255), 255);
}

#[test]
fn changing_the_backend_keeps_everything() {
    let mut trie = Trie::<BTreeTransTable>::default();
    for word in ["ab", "abc", "b", "ca"] {
        trie.insert_bytes(word.as_bytes());
    }
    let sam = GeneralSAM::<BTreeTransTable>::construct_from_trie(trie.get_root_state());
    let hashed = sam.alter_trans_table::<HashTransTable>();
    let dense = sam.alter_trans_table::<WholeAlphabetTable<u8>>();
    let searched = trie.alter_trans_table::<BisectTable>();
    assert_eq!(searched.num_of_nodes(), trie.num_of_nodes());
    assert_eq!(hashed.num_of_nodes(), sam.num_of_nodes());
    assert_eq!(hashed.get_topo_sorted_node_ids(), sam.get_topo_sorted_node_ids());
    for text in ["ab", "bc", "c", "abc", "ca", "a", "cab", "zz"] {
        let mut a = sam.get_root_state();
        a.feed_bytes(text.as_bytes());
        let mut b = hashed.get_root_state();
        b.feed_bytes(text.as_bytes());
        let mut c = dense.get_root_state();
        c.feed_bytes(text.as_bytes());
        assert_eq!(a.node_id, b.node_id);
        assert_eq!(a.node_id, c.node_id);
        assert_eq!(a.is_accepting(), b.is_accepting());
        let mut t = trie.get_root_state();
        t.feed(&symbols_of_bytes(text.as_bytes()));
        let mut s = searched.get_root_state();
        s.feed(&symbols_of_bytes(text.as_bytes()));
        assert_eq!(t.node_id, s.node_id);
    }
}

fn names(events: &[TravelEvent<general_sam::trie::TrieState<'_, BTreeTransTable>>]) -> Vec<String> {
    events
        .iter()
        .map(|e| match e {
            TravelEvent::PushRoot(n) => format!("root {}", n.node_id),
            TravelEvent::Push(n, k) => format!("push {} {}", n.node_id, *k as u8 as char),
            TravelEvent::Pop(n) => format!("pop {}", n.node_id),
        })
        .collect()
}

#[test]
fn walks_over_a_trie() {
    let mut trie = Trie::<BTreeTransTable>::default();
    trie.insert_chars("ab");
    trie.insert_chars("c");
    trie.insert_chars("ad");
    // nodes: 1 root, 2 "a", 3 "ab", 4 "c", 5 "ad"
    let by_levels = bfs_travel(trie.get_root_state());
    assert_eq!(
        names(&by_levels),
        vec![
            "root 1", "pop 1", "push 2 a", "push 4 c", "pop 2", "push 3 b", "push 5 d", "pop 4",
            "pop 3", "pop 5"
        ]
    );
    let in_depth = dfs_travel(trie.get_root_state());
    assert_eq!(
        names(&in_depth),
        vec![
            "root 1", "push 2 a", "push 3 b", "pop 3", "push 5 d", "pop 5", "pop 2", "push 4 c",
            "pop 4", "pop 1"
        ]
    );

    let sam = GeneralSAM::<BTreeTransTable>::construct_from_chars("ab");
    let along = sam.get_root_state().bfs_along(trie.get_root_state());
    let states: Vec<usize> = along.iter().map(|p| p.1).collect();
    let a = feed(&sam, "a").node_id;
    let ab = feed(&sam, "ab").node_id;
    assert_eq!(states, vec![1, 1, a, 0, a, ab, 0, 0, ab, 0]);
    let along = sam.get_root_state().dfs_along(trie.get_root_state());
    let states: Vec<usize> = along.iter().map(|p| p.1).collect();
    assert_eq!(states, vec![1, a, ab, ab, 0, 0, a, 0, 0, 1]);
}

#[test]
fn a_sequence_as_a_chain() {
    let symbols = symbols_of_str("xy");
    let chain = IterAsChain::from(&symbols);
    assert!(!chain.is_accepting());
    let next = chain.next_states();
    assert_eq!(next.len(), 1);
    assert_eq!(next[0].0, 'x' as u32);
    let last = next[0].1.next_states()[0].1;
    assert!(last.is_accepting());
    assert!(last.next_states().is_empty());
    assert_eq!(dfs_travel(chain).len(), 6);
    assert_eq!(bfs_travel(chain).len(), 6);
}

#[test]
fn data_on_the_states() {
    let mut trie = Trie::<BTreeTransTable>::default();
    let a = trie.insert_chars("a");
    let ab = trie.insert_chars("ab");
    let b = trie.insert_chars("b");
    let sam = GeneralSAM::<BTreeTransTable>::construct_from_trie(trie.get_root_state());
    let data = SuffixInTrieData::build(&sam, trie.get_root_state(), |tn| tn.node_id);
    assert_eq!(data.len(), sam.num_of_nodes());
    assert!(data[0].get(0).is_none());
    assert!(data[1].get(0).is_none());
    assert_eq!(data[1].get_min_suf_len(), 0);
    assert_eq!(data[1].get_max_suf_len(), 0);
    let at = |text: &str, len: usize| {
        let id = feed(&sam, text).node_id;
        data[id].get(len).map(|e| e.into_inner().map(|t| (t.digested_trie_node, t.seq_len)))
    };
    assert_eq!(at("a", 1), Some(Some((a, 1))));
    assert_eq!(at("ab", 2), Some(Some((ab, 2))));
    assert_eq!(at("b", 1), Some(Some((b, 1))));
    assert_eq!(at("ab", 3), None);
    assert_eq!(at("ab", 0), None);
    for v in 1..sam.num_of_nodes() {
        let node = sam.get_node(v).unwrap();
        assert_eq!(data[v].get_max_suf_len(), node.max_suffix_len());
        if v != 1 {
            let parent = sam.get_node(node.get_suffix_parent_id()).unwrap();
            assert_eq!(data[v].get_min_suf_len(), parent.max_suffix_len() + 1);
        }
        assert_eq!(
            data[v].get_rope().for_each().len(),
            data[v].get_max_suf_len() - data[v].get_min_suf_len() + 1
        );
    }
    let copy = data[2].map(|rope| rope.clone());
    assert_eq!(copy.get_max_suf_len(), data[2].get_max_suf_len());

    let given: Vec<Vec<(usize, RopeUntaggedInner<u32>)>> =
        (0..sam.num_of_nodes()).map(|_| Vec::new()).collect();
    let plain = SuffixwiseData::build_from_sam(
        &sam,
        &given,
        RopeUntaggedInner(7u32),
    );
    for v in 1..sam.num_of_nodes() {
        for item in plain[v].get_rope().for_each() {
            assert_eq!(item.into_inner(), 7);
        }
    }
}

#[test]
fn tokens_of_the_vocabulary_scenario() {
    let vocab = ["a", "ab", "b", "bc", "c", "d", "e", "f", "cd", "abcde"];
    let mut trie = Trie::<BTreeTransTable>::default();
    let ids: Vec<usize> = vocab.iter().map(|w| trie.insert_chars(w)).collect();
    let id = |word: &str| ids[vocab.iter().position(|w| *w == word).unwrap()];
    let sam = GeneralSAM::<BTreeTransTable>::construct_from_trie(trie.get_root_state());
    let tokenizer = GreedyTokenizer::build_from_trie(&sam, trie.get_root_state());
    let unk = trie.num_of_nodes();
    assert_eq!(
        tokenizer.tokenize(&symbols_of_str("abcde"), &unk),
        vec![(id("abcde"), 5)]
    );
    assert_eq!(
        tokenizer.tokenize(&symbols_of_str("abcdf"), &unk),
        vec![(id("ab"), 2), (id("cd"), 2), (id("f"), 1)]
    );
    assert_eq!(
        greedy_tokenize_with_trie(&trie, &symbols_of_str("abcdf")),
        vec![(id("ab"), 2), (id("cd"), 2), (id("f"), 1)]
    );
    assert_eq!(
        tokenizer.tokenize(&symbols_of_str("abca"), &unk),
        vec![(id("ab"), 2), (id("c"), 1), (id("a"), 1)]
    );
    assert_eq!(tokenizer.tokenize(&[], &unk), vec![]);
    assert_eq!(tokenizer.get_suffix_data().len(), sam.num_of_nodes());
    assert_eq!(tokenizer.get_sam_ref().num_of_nodes(), sam.num_of_nodes());
    let borrowed = tokenizer.inner_as_ref();
    assert_eq!(
        borrowed.tokenize(&symbols_of_str("abcde"), &unk),
        vec![(id("abcde"), 5)]
    );
    assert_eq!(tokenizer.get_sam().get().num_of_nodes(), sam.num_of_nodes());
}

#[test]
fn unknown_symbols_become_one_token() {
    let mut trie = Trie::<BTreeTransTable>::default();
    let a = trie.insert_chars("a");
    let sam = GeneralSAM::<BTreeTransTable>::construct_from_trie(trie.get_root_state());
    let tokenizer = GreedyTokenizer::build_from_trie(&sam, trie.get_root_state());
    let unk = trie.num_of_nodes();
    assert_eq!(tokenizer.tokenize(&symbols_of_str("xyz"), &unk), vec![(unk, 3)]);
    assert_eq!(tokenizer.tokenize(&symbols_of_str("x"), &unk), vec![(unk, 1)]);
    assert_eq!(
        tokenizer.tokenize(&symbols_of_str("xaay"), &unk),
        vec![(unk, 1), (a, 1), (a, 1), (unk, 1)]
    );
    assert_eq!(greedy_tokenize_with_trie(&trie, &symbols_of_str("xyz")), vec![(unk, 3)]);
    assert_eq!(
        greedy_tokenize_with_trie(&trie, &symbols_of_str("xaay")),
        vec![(unk, 1), (a, 1), (a, 1), (unk, 1)]
    );
}

#[test]
fn appending_tokens() {
    let mut out: Vec<(usize, usize)> = Vec::new();
    push_token(&mut out, 9, 1, 9);
    push_token(&mut out, 9, 2, 9);
    assert_eq!(out, vec![(9, 3)]);
    push_token(&mut out, 4, 2, 9);
    push_token(&mut out, 4, 1, 9);
    push_token(&mut out, 9, 1, 9);
    assert_eq!(out, vec![(9, 3), (4, 2), (4, 1), (9, 1)]);
}

#[test]
fn the_strings_of_a_state_fill_its_interval() {
    let text = "abcbcabd";
    let sam = GeneralSAM::<BTreeTransTable>::construct_from_chars(text);
    let n = sam.num_of_nodes();
    let mut lengths: Vec<Vec<usize>> = vec![Vec::new(); n];
    for i in 0..=text.len() {
        for j in i..=text.len() {
            let state = feed(&sam, &text[i..j]);
            assert!(!state.is_nil());
            if !lengths[state.node_id].contains(&(j - i)) {
                lengths[state.node_id].push(j - i);
            }
        }
    }
    assert_eq!(lengths[1], vec![0]);
    for id in 2..n {
        let node = sam.get_node(id).unwrap();
        let parent = sam.get_node(node.get_suffix_parent_id()).unwrap();
        let mut seen = lengths[id].clone();
        seen.sort();
        let all: Vec<usize> = (parent.max_suffix_len() + 1..=node.max_suffix_len()).collect();
        assert_eq!(seen, all);
        if node.is_accepting() {
            assert!(parent.is_accepting());
        }
    }
}
