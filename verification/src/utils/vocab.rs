//! Greedy tokenization as mathematics: a vocabulary is a map from words to
//! tokens, and the tokens of an input are found by taking, at every
//! position, the longest word that begins there.
use vstd::prelude::*;

verus! {

/// The sum of the lengths of a sequence of tokens.
pub open spec fn total_len(s: Seq<(usize, usize)>) -> nat
    decreases s.len(),
{
    if s.len() == 0 {
        0
    } else {
        total_len(s.drop_last()) + s.last().1 as nat
    }
}

/// The tokens `s` with one more: where both the last of `s` and the new one
/// are unknown, their lengths add up in one token.
pub open spec fn pushed(s: Seq<(usize, usize)>, token_id: usize, token_len: usize, unk: usize) -> Seq<
    (usize, usize),
> {
    if s.len() > 0 && s.last().0 == unk && token_id == unk {
        s.drop_last().push((unk, (s.last().1 + token_len) as usize))
    } else {
        s.push((token_id, token_len))
    }
}

/// No two unknown tokens follow each other, and no token is empty.
pub open spec fn tokens_tidy(s: Seq<(usize, usize)>, unk: usize) -> bool {
    &&& forall|i: int| 0 <= i < s.len() ==> (#[trigger] s[i]).1 >= 1
    &&& forall|i: int| 0 <= i < s.len() - 1 ==> !((#[trigger] s[i]).0 == unk && s[i + 1].0 == unk)
}

/// Appending a token keeps the tokens tidy and adds its length.
pub proof fn lemma_pushed(s: Seq<(usize, usize)>, token_id: usize, token_len: usize, unk: usize)
    requires
        tokens_tidy(s, unk),
        token_len >= 1,
        total_len(s) + token_len <= usize::MAX,
    ensures
        tokens_tidy(pushed(s, token_id, token_len, unk), unk),
        total_len(pushed(s, token_id, token_len, unk)) == total_len(s) + token_len,
{
    let r = pushed(s, token_id, token_len, unk);
    if s.len() > 0 && s.last().0 == unk && token_id == unk {
        let d = s.drop_last();
        assert(r.drop_last() =~= d);
        assert(total_len(s) == total_len(d) + s.last().1);
        assert forall|i: int| 0 <= i < r.len() implies (#[trigger] r[i]).1 >= 1 by {
            if i < d.len() {
                assert(r[i] == s[i]);
            }
        }
        assert forall|i: int| 0 <= i < r.len() - 1 implies !((#[trigger] r[i]).0 == unk && r[i + 1].0
            == unk) by {
            assert(r[i] == s[i]);
            if i + 1 < d.len() {
                assert(r[i + 1] == s[i + 1]);
            } else {
                assert(s[i + 1].0 == unk);
            }
        }
    } else {
        assert(r.drop_last() =~= s);
        assert forall|i: int| 0 <= i < r.len() implies (#[trigger] r[i]).1 >= 1 by {
            if i < s.len() {
                assert(r[i] == s[i]);
            }
        }
        assert forall|i: int| 0 <= i < r.len() - 1 implies !((#[trigger] r[i]).0 == unk && r[i + 1].0
            == unk) by {
            assert(r[i] == s[i]);
            if i + 1 < s.len() {
                assert(r[i + 1] == s[i + 1]);
            }
        }
    }
}

/// The length of the longest word of the vocabulary that `seq` continues
/// with at `cur`, among the lengths from 1 to `j`; 0 where there is none.
pub open spec fn best_upto<V>(vocab: Map<Seq<u32>, V>, seq: Seq<u32>, cur: int, j: int) -> int
    decreases j,
{
    if j <= 0 {
        0
    } else if vocab.contains_key(seq.subrange(cur, cur + j)) {
        j
    } else {
        best_upto(vocab, seq, cur, j - 1)
    }
}

/// The tokens of `seq` from `cur` on, behind the tokens `acc`: at every
/// position the longest word of the vocabulary that begins there, by its
/// token, or the unknown token for one symbol.
pub open spec fn greedy_tokens(
    vocab: Map<Seq<u32>, usize>,
    seq: Seq<u32>,
    cur: int,
    acc: Seq<(usize, usize)>,
    unk: usize,
) -> Seq<(usize, usize)>
    decreases
            (if seq.len() > cur {
                seq.len() - cur
            } else {
                0
            }),
{
    if cur >= seq.len() || cur < 0 {
        acc
    } else {
        let b = best_upto(vocab, seq, cur, seq.len() - cur);
        let stride = if b > 0 {
            b
        } else {
            1
        };
        let token = if b > 0 {
            vocab[seq.subrange(cur, cur + b)]
        } else {
            unk
        };
        greedy_tokens(vocab, seq, cur + stride, pushed(acc, token, stride as usize, unk), unk)
    }
}

/// The longest word is no longer than the lengths it was sought among, and
/// where it is found it is a word.
pub proof fn lemma_best_bound<V>(vocab: Map<Seq<u32>, V>, seq: Seq<u32>, cur: int, j: int)
    ensures
        0 <= best_upto(vocab, seq, cur, j) <= (if j > 0 {
            j
        } else {
            0
        }),
        best_upto(vocab, seq, cur, j) > 0 ==> vocab.contains_key(
            seq.subrange(cur, cur + best_upto(vocab, seq, cur, j)),
        ),
    decreases j,
{
    if j > 0 {
        lemma_best_bound(vocab, seq, cur, j - 1);
    }
}

/// Where no word has a length between `a` and `j`, the longest word up to
/// `j` is the longest up to `a`.
pub proof fn lemma_best_skip<V>(vocab: Map<Seq<u32>, V>, seq: Seq<u32>, cur: int, a: int, j: int)
    requires
        0 <= a <= j,
        forall|l: int| a < l <= j ==> !vocab.contains_key(#[trigger] seq.subrange(cur, cur + l)),
    ensures
        best_upto(vocab, seq, cur, j) == best_upto(vocab, seq, cur, a),
    decreases j - a,
{
    if j > a {
        lemma_best_skip(vocab, seq, cur, a, j - 1);
    }
}

/// The longest word among the prefixes of a string up to a length does not
/// depend on what follows them.
pub proof fn lemma_best_prefix<V>(vocab: Map<Seq<u32>, V>, w: Seq<u32>, j: int)
    requires
        w.len() > 0,
        0 <= j < w.len(),
    ensures
        best_upto(vocab, w, 0, j) == best_upto(vocab, w.drop_last(), 0, j),
    decreases j,
{
    if j > 0 {
        lemma_best_prefix(vocab, w, j - 1);
        assert(w.subrange(0, j) =~= w.drop_last().subrange(0, j));
    }
}

/// The longest word at a position, among the lengths within a window, is
/// the longest word that the window begins with.
pub proof fn lemma_best_window<V>(vocab: Map<Seq<u32>, V>, seq: Seq<u32>, cur: int, m: int, j: int)
    requires
        0 <= cur,
        0 <= j <= m,
        cur + m <= seq.len(),
    ensures
        best_upto(vocab, seq, cur, j) == best_upto(vocab, seq.subrange(cur, cur + m), 0, j),
    decreases j,
{
    if j > 0 {
        lemma_best_window(vocab, seq, cur, m, j - 1);
        assert(seq.subrange(cur, cur + m).subrange(0, j) =~= seq.subrange(cur, cur + j));
    }
}

} // verus!
