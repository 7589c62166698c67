use general_sam::sam::{symbols_of_str, GeneralSAM, SAM_ROOT_NODE_ID};
use general_sam::table::{BTreeTransTable, TransitionTable};
use general_sam::trie::Trie;
use rand::distr::{Alphanumeric, SampleString};
use rand::rngs::StdRng;
use rand::{Rng, SeedableRng};

#[test]
fn tests_test_example_from_chars() {
    let sam_from_chars = GeneralSAM::<BTreeTransTable>::construct_from_chars("abcbc");

    let mut state = sam_from_chars.get_root_state();
    assert!(state.is_root());
    state.feed_chars("b");
    assert!(!state.is_accepting() && !state.is_nil() && !state.is_root());
    state.feed_chars("c");
    assert!(state.is_accepting() && !state.is_nil() && !state.is_root());
    state.feed_chars("bc");
    assert!(state.is_accepting() && !state.is_nil() && !state.is_root());
    state.feed_chars("bc");
    assert!(!state.is_accepting() && state.is_nil() && !state.is_root());
}

#[test]
fn tests_test_example_from_bytes() {
    let sam_from_bytes = GeneralSAM::<BTreeTransTable>::construct_from_bytes("abcbc".as_bytes());

    let mut state = sam_from_bytes.get_root_state();
    assert!(state.is_root());
    state.feed_bytes("b".as_bytes());
    assert!(!state.is_accepting() && !state.is_nil() && !state.is_root());
    state.feed_bytes("c".as_bytes());
    assert!(state.is_accepting() && !state.is_nil() && !state.is_root());
    state.feed_bytes("bc".as_bytes());
    assert!(state.is_accepting() && !state.is_nil() && !state.is_root());
    state.feed_bytes("bc".as_bytes());
    assert!(!state.is_accepting() && state.is_nil() && !state.is_root());
}

#[test]
fn tests_test_simple_bytes() {
    let sam = GeneralSAM::<BTreeTransTable>::construct_from_bytes("abcbc".as_bytes());
    println!("sam: {:?}", sam.num_of_nodes());
    let mut state = sam.get_root_state();
    println!("state \"\": {:?}", state.node_id);
    state.feed_bytes("bc".as_bytes());
    println!("state \"bc\": {:?}", state.node_id);
    state.feed_bytes("b".as_bytes());
    println!("state \"bcb\": {:?}", state.node_id);
    state.feed_bytes("c".as_bytes());
    println!("state \"bcbc\": {:?}", state.node_id);
    state.feed_bytes("a".as_bytes());
    println!("state \"bcbca\": {:?}", state.node_id);
    state.feed_bytes("a".as_bytes());
    println!("state \"bcbcaa\": {:?}", state.node_id);
}

#[test]
fn tests_test_simple_chars() {
    let sam = GeneralSAM::<BTreeTransTable>::construct_from_chars("abcbc");
    println!("sam: {:?}", sam.num_of_nodes());
    let mut state = sam.get_root_state();
    println!("state \"\": {:?}", state.node_id);
    state.feed_chars("bc");
    println!("state \"bc\": {:?}", state.node_id);
    state.feed_chars("b");
    println!("state \"bcb\": {:?}", state.node_id);
    state.feed_chars("c");
    println!("state \"bcbc\": {:?}", state.node_id);
    state.feed_chars("a");
    println!("state \"bcbca\": {:?}", state.node_id);
    state.feed_chars("a");
    println!("state \"bcbcaa\": {:?}", state.node_id);
}

#[test]
fn tests_test_chinese_bytes() {
    let sam = GeneralSAM::<BTreeTransTable>::construct_from_bytes("‰Ω†Â•Ω".as_bytes());
    println!("sam: {:?}", sam.num_of_nodes());
    let mut state = sam.get_root_state();
    println!("state \"\": {:?}", state.node_id);
    state.feed_bytes("‰Ω†Â•Ω".as_bytes());
    println!("state \"‰Ω†Â•Ω\": {:?}", state.node_id);
}

#[test]
fn tests_test_chinese_chars() {
    let sam = GeneralSAM::<BTreeTransTable>::construct_from_chars("‰Ω†Â•Ω");
    println!("sam: {:?}", sam.num_of_nodes());
    let mut state = sam.get_root_state();
    println!("state \"\": {:?}", state.node_id);
    state.feed_chars("‰Ω†Â•Ω");
    println!("state \"‰Ω†Â•Ω\": {:?}", state.node_id);
}

#[test]
fn tests_test_example_from_trie() {
    let mut trie = Trie::<BTreeTransTable>::default();

    trie.insert(&symbols_of_str("hello"));
    trie.insert(&symbols_of_str("Chielo"));

    let sam_from_trie = GeneralSAM::<BTreeTransTable>::construct_from_trie(trie.get_root_state());

    let mut state = sam_from_trie.get_root_state();
    assert!(state.is_root());
    state.feed_chars("l");
    assert!(!state.is_accepting() && !state.is_nil() && !state.is_root());
    state.feed_chars("o");
    assert!(state.is_accepting() && !state.is_nil() && !state.is_root());

    let mut state = sam_from_trie.get_root_state();
    assert!(state.is_root());
    state.feed_chars("Chie");
    assert!(!state.is_accepting() && !state.is_nil() && !state.is_root());
    state.feed_chars("lo");
    assert!(state.is_accepting() && !state.is_nil() && !state.is_root());
}

fn check_trie_suffix(vocab: &[&str]) {
    let mut trie = Trie::<BTreeTransTable>::default();
    vocab.iter().for_each(|word| {
        trie.insert_chars(word);
    });

    let sam = GeneralSAM::<BTreeTransTable>::construct_from_trie(trie.get_root_state());

    let is_suffix = |word_slice: &str| vocab.iter().any(|word| word.ends_with(word_slice));

    vocab.iter().for_each(|word| {
        word.char_indices().for_each(|(i, _)| {
            word.char_indices()
                .chain(Some((word.len(), '\0')))
                .for_each(|(j, _)| {
                    if i < j {
                        let mut state = sam.get_root_state();
                        state.feed_chars(&word[i..j]);
                        assert!(!state.is_nil());
                        assert!(is_suffix(&word[i..j]) ^ !(state.is_accepting()));
                    }
                })
        });
    });
}

#[test]
fn tests_test_chiense_trie_suffix() {
    let vocab = ["Ê≠åÊõ≤", "ËÅÜÂê¨Ê≠åÊõ≤", "Êí≠ÊîæÊ≠åÊõ≤", "Ê≠åËØç", "Êü•ÁúãÊ≠åËØç"];
    check_trie_suffix(&vocab);
}

#[test]
fn tests_test_simple_trie_suffix() {
    let vocab = ["ac", "bb", "b", "cc", "aabb", "a", "ba", "c", "aa"];
    check_trie_suffix(&vocab);
}

fn check_topo_and_suf_len_sorted_order() {
    let mut rng = StdRng::seed_from_u64(1134759173975);
    for _ in 0..10000 {
        let mut trie = Trie::<BTreeTransTable>::default();
        for _ in 0..rng.random_range(0..32) {
            let len = rng.random_range(0..9);
            let string = Alphanumeric.sample_string(&mut rng, len);
            trie.insert_bytes(string.as_bytes());
        }

        let sam = GeneralSAM::<BTreeTransTable>::construct_from_trie(trie.get_root_state());

        let order = sam.get_topo_and_suf_len_sorted_node_ids();
        let rank = {
            let mut rank = vec![0; sam.num_of_nodes()];
            order.iter().enumerate().for_each(|(k, i)| {
                rank[*i] = k;
            });
            rank
        };

        // verify that max suffix lengths should be sorted
        for pos in 0..order.len() - 1 {
            assert!(
                sam.get_node(order[pos]).unwrap().max_suffix_len()
                    <= sam.get_node(order[pos + 1]).unwrap().max_suffix_len()
            );
        }

        // verify topological ordering
        order.iter().for_each(|node_id| {
            let node = sam.get_node(*node_id).unwrap();

            node.get_trans().transitions().iter().for_each(|next_node_id| {
                assert!(rank[*next_node_id] > rank[*node_id]);
            });
        });

        // verify suffix parent tree depth ordering
        order.iter().for_each(|node_id| {
            let node = sam.get_node(*node_id).unwrap();

            if *node_id != SAM_ROOT_NODE_ID {
                assert!(rank[node.get_suffix_parent_id()] < rank[*node_id]);
            }
        });
    }
}

#[test]
fn tests_test_topo_and_suf_len_sorted_order() {
    check_topo_and_suf_len_sorted_order();
}

#[test]
fn trie_test_topo_and_suf_len_sorted_order() {
    check_topo_and_suf_len_sorted_order();
}

#[test]
fn mod_test_example_from_chars() {
    let sam_from_chars = GeneralSAM::<BTreeTransTable>::construct_from_chars("abcbc");

    let mut state = sam_from_chars.get_root_state();
    assert!(state.is_root());
    state.feed_chars("b");
    assert!(!state.is_accepting() && !state.is_nil() && !state.is_root());
    state.feed_chars("c");
    assert!(state.is_accepting() && !state.is_nil() && !state.is_root());
    state.feed_chars("bc");
    assert!(state.is_accepting() && !state.is_nil() && !state.is_root());
    state.feed_chars("bc");
    assert!(!state.is_accepting() && state.is_nil() && !state.is_root());
}

#[test]
fn mod_test_example_from_bytes() {
    let sam_from_bytes = GeneralSAM::<BTreeTransTable>::construct_from_bytes("abcbc".as_bytes());

    let mut state = sam_from_bytes.get_root_state();
    assert!(state.is_root());
    state.feed_bytes("b".as_bytes());
    assert!(!state.is_accepting() && !state.is_nil() && !state.is_root());
    state.feed_bytes("c".as_bytes());
    assert!(state.is_accepting() && !state.is_nil() && !state.is_root());
    state.feed_bytes("bc".as_bytes());
    assert!(state.is_accepting() && !state.is_nil() && !state.is_root());
    state.feed_bytes("bc".as_bytes());
    assert!(!state.is_accepting() && state.is_nil() && !state.is_root());
}

#[test]
fn mod_test_simple_bytes() {
    let sam = GeneralSAM::<BTreeTransTable>::construct_from_bytes("abcbc".as_bytes());
    let mut state = sam.get_root_state();
    assert!(state.is_accepting() && !state.is_nil() && state.is_root());
    state.feed_bytes("bc".as_bytes());
    assert!(state.is_accepting() && !state.is_nil() && !state.is_root());
    state.feed_bytes("b".as_bytes());
    assert!(!state.is_accepting() && !state.is_nil() && !state.is_root());
    state.feed_bytes("c".as_bytes());
    assert!(state.is_accepting() && !state.is_nil() && !state.is_root());
    state.feed_bytes("a".as_bytes());
    assert!(!state.is_accepting() && state.is_nil() && !state.is_root());
    state.feed_bytes("a".as_bytes());
    assert!(!state.is_accepting() && state.is_nil() && !state.is_root());
}

#[test]
fn mod_test_simple_chars() {
    let sam = GeneralSAM::<BTreeTransTable>::construct_from_chars("abcbc");
    let mut state = sam.get_root_state();
    assert!(state.is_accepting() && !state.is_nil() && state.is_root());
    state.feed_chars("bc");
    assert!(state.is_accepting() && !state.is_nil() && !state.is_root());
    state.feed_chars("b");
    assert!(!state.is_accepting() && !state.is_nil() && !state.is_root());
    state.feed_chars("c");
    assert!(state.is_accepting() && !state.is_nil() && !state.is_root());
    state.feed_chars("a");
    assert!(!state.is_accepting() && state.is_nil() && !state.is_root());
    state.feed_chars("a");
    assert!(!state.is_accepting() && state.is_nil() && !state.is_root());
}

#[test]
fn mod_test_chinese_bytes() {
    let sam = GeneralSAM::<BTreeTransTable>::construct_from_bytes("你好".as_bytes());
    let mut state = sam.get_root_state();
    assert!(state.is_accepting() && !state.is_nil() && state.is_root());
    state.feed_bytes("你好".as_bytes());
    assert!(state.is_accepting() && !state.is_nil() && !state.is_root());
}

#[test]
fn mod_test_chinese_chars() {
    let sam = GeneralSAM::<BTreeTransTable>::construct_from_chars("你好");
    let mut state = sam.get_root_state();
    assert!(state.is_accepting() && !state.is_nil() && state.is_root());
    state.feed_chars("你好");
    assert!(state.is_accepting() && !state.is_nil() && !state.is_root());
}

#[test]
fn trie_test_example_from_trie() {
    let mut trie = Trie::<BTreeTransTable>::default();

    trie.insert_chars("hello");
    trie.insert_chars("Chielo");

    let sam = GeneralSAM::<BTreeTransTable>::construct_from_trie(trie.get_root_state());

    let mut state = sam.get_root_state();
    assert!(state.is_root());
    state.feed_chars("l");
    assert!(!state.is_accepting() && !state.is_nil() && !state.is_root());
    state.feed_chars("o");
    assert!(state.is_accepting() && !state.is_nil() && !state.is_root());

    let mut state = sam.get_root_state();
    assert!(state.is_root());
    state.feed_chars("Chie");
    assert!(!state.is_accepting() && !state.is_nil() && !state.is_root());
    state.feed_chars("lo");
    assert!(state.is_accepting() && !state.is_nil() && !state.is_root());
}

#[test]
fn trie_test_chiense_trie_suffix() {
    let vocab = ["歌曲", "聆听歌曲", "播放歌曲", "歌词", "查看歌词"];
    check_trie_suffix(&vocab);
}

#[test]
fn trie_test_simple_trie_suffix() {
    let vocab = ["ac", "bb", "b", "cc", "aabb", "a", "ba", "c", "aa"];
    check_trie_suffix(&vocab);
}
