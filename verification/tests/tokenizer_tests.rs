use general_sam::sam::{symbols_of_bytes, symbols_of_str, GeneralSAM};
use general_sam::table::{
    BTreeTransTable, BoxBisectTable, HashTransTable, TransitionTable, VecBisectTable,
    WholeAlphabetTable,
};
use general_sam::trie::Trie;
use general_sam::utils::rope::RopeBase;
use general_sam::utils::suffixwise::{SuffixInTrie, SuffixInTrieData};
use general_sam::utils::tokenize::{greedy_tokenize_with_trie, GreedyTokenizer};
use rand::distr::{Alphanumeric, SampleString};
use rand::rngs::StdRng;
use rand::{Rng, SeedableRng};
use std::collections::BTreeMap;

fn check_suffix_in_trie_data(vocab: &[&'static str]) {
    let mut trie = Trie::<BTreeTransTable>::default();
    let mut id_to_word = BTreeMap::new();
    for word in vocab {
        id_to_word.insert(trie.insert_chars(word), *word);
    }

    let sam = GeneralSAM::<BTreeTransTable>::construct_from_trie(trie.get_root_state());

    let data = SuffixInTrieData::build(&sam, trie.get_root_state(), |tn| tn.node_id);
    for i in data.iter().skip(1) {
        let mut suffix_info = Vec::new();
        i.get_rope().for_each().iter().for_each(|x| {
            suffix_info.push(x.into_inner().map(|x| {
                let SuffixInTrie {
                    digested_trie_node: trie_node,
                    seq_len: chars_count,
                } = x;
                let word = id_to_word.get(&trie_node).unwrap();
                assert_eq!(chars_count, word.chars().count());
                (chars_count, word)
            }))
        });
        assert_eq!(
            suffix_info.len(),
            i.get_max_suf_len() - i.get_min_suf_len() + 1
        );
    }
}

#[test]
fn tests_test_suffix_in_trie_data() {
    let vocab = [
        "a", "ab", "b", "bc", "c", "d", "e", "f", "cd", "abcde", "‰Ω†Â•Ω", "üß°",
    ];
    check_suffix_in_trie_data(&vocab);
}

#[test]
fn utils_test_suffix_in_trie_data() {
    let vocab = [
        "a", "ab", "b", "bc", "c", "d", "e", "f", "cd", "abcde", "你好", "🧡",
    ];
    check_suffix_in_trie_data(&vocab);
}

#[test]
fn test_tokenizer_simple() {
    let vocab = [
        "a", "ab", "b", "bc", "c", "d", "e", "f", "cd", "abcde", "‰Ω†Â•Ω", "üß°",
    ];
    let mut trie = Trie::<BTreeTransTable>::default();
    let mut id_to_word = BTreeMap::new();
    for word in vocab {
        id_to_word.insert(trie.insert_chars(word), word);
    }

    let sam = GeneralSAM::<BTreeTransTable>::construct_from_trie(trie.get_root_state());

    let tokenizer = GreedyTokenizer::build_from_trie(&sam, trie.get_root_state());

    println!("{:?}", tokenizer.tokenize(&symbols_of_str("abcde"), &trie.num_of_nodes()));
    println!("{:?}", tokenizer.tokenize(&symbols_of_str("abcdf"), &trie.num_of_nodes()));
    println!("{:?}", tokenizer.tokenize(&symbols_of_str("abca"), &trie.num_of_nodes()));
    println!(
        "{:?}",
        tokenizer.tokenize(&symbols_of_str("HiÔºå‰Ω†Â•ΩÂêóÔºü"), &trie.num_of_nodes())
    );
    println!(
        "{:?}",
        tokenizer.tokenize(&symbols_of_str("üß°üß°üß°üß°üß°ÔºÅ"), &trie.num_of_nodes())
    );
    println!("{:?}", tokenizer.tokenize(&symbols_of_str("abc"), &trie.num_of_nodes()));
}

fn case_tokenizer<TransTable: TransitionTable>(
    tokenizer: &GreedyTokenizer<TransTable>,
    trie: &Trie<TransTable>,
    seq: Vec<u32>,
) {
    let output = tokenizer.tokenize(&seq, &trie.num_of_nodes());
    let expected = greedy_tokenize_with_trie(trie, &seq);
    output.iter().zip(expected.iter()).for_each(|(o, e)| {
        assert_eq!(*o, *e);
    });
    assert_eq!(output, expected);
}

#[test]
fn test_tokenizer_simple_chars() {
    let vocab = [
        "a", "ab", "b", "bc", "c", "d", "e", "f", "cd", "abcde", "你好", "🧡",
    ];
    let mut trie = Trie::<BTreeTransTable>::default();
    let mut id_to_word = BTreeMap::new();
    for word in vocab {
        id_to_word.insert(trie.insert_chars(word), word);
    }

    let sam = GeneralSAM::<BTreeTransTable>::construct_from_trie(trie.get_root_state());

    let tokenizer = GreedyTokenizer::build_from_trie(&sam, trie.get_root_state());

    case_tokenizer(&tokenizer, &trie, symbols_of_str("abcde"));
    case_tokenizer(&tokenizer, &trie, symbols_of_str("abcdf"));
    case_tokenizer(&tokenizer, &trie, symbols_of_str("abca"));
    case_tokenizer(&tokenizer, &trie, symbols_of_str("Hi，你好吗？"));
    case_tokenizer(&tokenizer, &trie, symbols_of_str("🧡🧡🧡🧡🧡！"));
    case_tokenizer(&tokenizer, &trie, symbols_of_str("abc"));
}

#[test]
fn test_tokenizer_simple_bytes() {
    let vocab = [
        "a", "ab", "b", "bc", "c", "d", "e", "f", "cd", "abcde", "你好", "🧡",
    ];
    let mut trie = Trie::<BTreeTransTable>::default();
    let mut id_to_word = BTreeMap::new();
    for word in vocab {
        id_to_word.insert(trie.insert_bytes(word.as_bytes()), word);
    }

    let sam = GeneralSAM::<BTreeTransTable>::construct_from_trie(trie.get_root_state());

    let tokenizer = GreedyTokenizer::build_from_trie(&sam, trie.get_root_state());

    case_tokenizer(&tokenizer, &trie, symbols_of_bytes("abcde".as_bytes()));
    case_tokenizer(&tokenizer, &trie, symbols_of_bytes("abcdf".as_bytes()));
    case_tokenizer(&tokenizer, &trie, symbols_of_bytes("abca".as_bytes()));
    case_tokenizer(&tokenizer, &trie, symbols_of_bytes("Hi，你好吗？".as_bytes()));
    case_tokenizer(&tokenizer, &trie, symbols_of_bytes("🧡🧡🧡🧡🧡！".as_bytes()));
    case_tokenizer(&tokenizer, &trie, symbols_of_bytes("abc".as_bytes()));
}

#[test]
fn test_tokenizer_owning_sam() {
    let vocab = [
        "a", "ab", "b", "bc", "c", "d", "e", "f", "cd", "abcde", "你好", "🧡",
    ];
    let mut trie = Trie::<BTreeTransTable>::default();
    let mut id_to_word = BTreeMap::new();
    for word in vocab {
        id_to_word.insert(trie.insert_bytes(word.as_bytes()), word);
    }

    let sam = GeneralSAM::<BTreeTransTable>::construct_from_trie(trie.get_root_state());

    let tokenizer =
        GreedyTokenizer::<BTreeTransTable>::build_from_sam_and_trie(sam, trie.get_root_state());

    case_tokenizer(&tokenizer, &trie, symbols_of_bytes("abcde".as_bytes()));
    case_tokenizer(&tokenizer, &trie, symbols_of_bytes("abcdf".as_bytes()));
    case_tokenizer(&tokenizer, &trie, symbols_of_bytes("abca".as_bytes()));
    case_tokenizer(&tokenizer, &trie, symbols_of_bytes("Hi，你好吗？".as_bytes()));
    case_tokenizer(&tokenizer, &trie, symbols_of_bytes("🧡🧡🧡🧡🧡！".as_bytes()));
    case_tokenizer(&tokenizer, &trie, symbols_of_bytes("abc".as_bytes()));
}

fn case_tokenizer_vocab<TransTable: TransitionTable, F: FnMut(String) -> Vec<u32>>(
    vocab_size: usize,
    token_len: usize,
    seed: u64,
    f: &mut F,
) {
    let mut rng = StdRng::seed_from_u64(seed);

    let mut trie = Trie::<BTreeTransTable>::default();
    for _ in 0..rng.random_range(0..vocab_size) {
        let len = rng.random_range(0..token_len);
        let string = Alphanumeric.sample_string(&mut rng, len);
        trie.insert(&f(string));
    }
    let trie = trie.alter_trans_table::<TransTable>();

    let sam = GeneralSAM::<BTreeTransTable>::construct_from_trie(trie.get_root_state())
        .alter_trans_table_into::<TransTable>();

    let tokenizer = GreedyTokenizer::build_from_trie(&sam, trie.get_root_state());

    for _ in 0..32 {
        let len = rng.random_range(0..4096);
        let string = Alphanumeric.sample_string(&mut rng, len);
        case_tokenizer(&tokenizer, &trie, f(string));
    }
}

fn tokenizer_cases<TransTable: TransitionTable, F: FnMut(String) -> Vec<u32>>(
    vocab_size: usize,
    mut f: &mut F,
) {
    for token_len in [32, 8, 4] {
        case_tokenizer_vocab::<TransTable, _>(vocab_size, token_len, 1928750982347, &mut f);
        case_tokenizer_vocab::<TransTable, _>(vocab_size, token_len, 2450679142816, &mut f);
        case_tokenizer_vocab::<TransTable, _>(vocab_size, token_len, 9173459982325, &mut f);
    }
}

fn tokenizer_cases_with_all_backends<F: FnMut(String) -> Vec<u32>>(vocab_size: usize, mut f: &mut F) {
    tokenizer_cases::<BTreeTransTable, _>(vocab_size, &mut f);
    tokenizer_cases::<HashTransTable, _>(vocab_size, &mut f);
    tokenizer_cases::<VecBisectTable, _>(vocab_size, &mut f);
    tokenizer_cases::<BoxBisectTable, _>(vocab_size, &mut f);
}

#[test]
fn test_tokenizer_small_vocab_bytes() {
    for i in [10, 16] {
        let mut f = |s: String| symbols_of_bytes(s.as_bytes());
        tokenizer_cases_with_all_backends(i, &mut f);
        tokenizer_cases::<WholeAlphabetTable<u8>, _>(i, &mut f);
        tokenizer_cases::<WholeAlphabetTable<u8>, _>(i, &mut f);
    }
}

#[test]
fn test_tokenizer_small_vocab_chars() {
    for i in [10, 16] {
        let mut f = |s: String| symbols_of_str(&s);
        tokenizer_cases_with_all_backends(i, &mut f);
    }
}

#[test]
fn test_tokenizer_large_vocab_bytes() {
    tokenizer_cases_with_all_backends(8192, &mut |s| symbols_of_bytes(s.as_bytes()));
}

#[test]
fn test_tokenizer_large_vocab_chars() {
    tokenizer_cases_with_all_backends(8192, &mut |s| symbols_of_str(&s));
}
