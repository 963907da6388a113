//! Code-length adjustment toward the Kraft inequality.

use vstd::prelude::*;
use vstd::arithmetic::power2::{pow2, lemma_pow2_unfold};
use crate::coding::{is_prefix_of, kraft_sum_scaled};

verus! {

/// `i` is the last index at which `lengths` takes its largest value.
pub open spec fn is_last_longest(lengths: Seq<usize>, i: int) -> bool {
    &&& 0 <= i < lengths.len()
    &&& forall|j: int| 0 <= j < lengths.len() ==> #[trigger] lengths[j] <= lengths[i]
    &&& forall|j: int| i < j < lengths.len() ==> #[trigger] lengths[j] < lengths[i]
}

/// Makes the longest code one bit longer (of several longest, the last one);
/// an empty list of lengths is left as it is. This is the step by which code
/// lengths are lengthened until their Kraft sum is at most 1.
pub fn lengthen_longest_code(lengths: &mut Vec<usize>)
    requires
        forall|j: int| 0 <= j < old(lengths).len() ==> #[trigger] old(lengths)[j] < usize::MAX,
    ensures
        old(lengths).len() == 0 ==> final(lengths)@ == old(lengths)@,
        old(lengths).len() > 0 ==> exists|i: int|
            is_last_longest(old(lengths)@, i) && final(lengths)@ == old(lengths)@.update(
                i,
                (old(lengths)[i] + 1) as usize,
            ),
{
    let n = lengths.len();
    if n == 0 {
        return;
    }
    let mut idx: usize = 0;
    let mut k: usize = 1;
    while k < n
        invariant
            n == lengths.len(),
            1 <= k <= n,
            idx < k,
            forall|j: int| 0 <= j < k ==> #[trigger] lengths[j] <= lengths[idx as int],
            forall|j: int| idx < j < k ==> #[trigger] lengths[j] < lengths[idx as int],
        decreases n - k,
    {
        if lengths[k] >= lengths[idx] {
            idx = k;
        }
        k = k + 1;
    }
    assert(is_last_longest(lengths@, idx as int));
    let longest = lengths[idx];
    lengths[idx] = longest + 1;
}


/// Words over the binary alphabet {0, 1}.
pub open spec fn is_binary(words: Seq<Seq<u8>>) -> bool {
    forall|i: int, k: int| 0 <= i < words.len() && 0 <= k < words[i].len() ==> #[trigger] words[i][k] <= 1
}

/// No word is a prefix of another word of the list (so no word occurs twice).
pub open spec fn is_prefix_free(words: Seq<Seq<u8>>) -> bool {
    forall|i: int, j: int|
        0 <= i < words.len() && 0 <= j < words.len() && i != j ==> !is_prefix_of(
            #[trigger] words[i],
            #[trigger] words[j],
        )
}

/// `2^e` times the Kraft sum of the words, counting every word (the empty
/// word too).
pub open spec fn word_sum(words: Seq<Seq<u8>>, e: nat) -> int
    decreases words.len(),
{
    if words.len() == 0 {
        0
    } else {
        word_sum(words.drop_last(), e) + pow2((e - words.last().len()) as nat) as int
    }
}

/// The words that start with bit `b`, with that bit removed.
spec fn tails_after(words: Seq<Seq<u8>>, b: u8) -> Seq<Seq<u8>>
    decreases words.len(),
{
    if words.len() == 0 {
        Seq::empty()
    } else {
        let rest = tails_after(words.drop_last(), b);
        let w = words.last();
        if w.len() > 0 && w[0] == b {
            rest.push(w.drop_first())
        } else {
            rest
        }
    }
}

proof fn lemma_tails_after_source(words: Seq<Seq<u8>>, b: u8, i: int)
    requires
        0 <= i < tails_after(words, b).len(),
    ensures
        exists|j: int|
            0 <= j < words.len() && #[trigger] words[j] == seq![b] + tails_after(words, b)[i],
    decreases words.len(),
{
    let rest = tails_after(words.drop_last(), b);
    let w = words.last();
    if i < rest.len() {
        lemma_tails_after_source(words.drop_last(), b, i);
        let j = choose|j: int|
            0 <= j < words.drop_last().len() && #[trigger] words.drop_last()[j] == seq![b] + rest[i];
        assert(words[j] == words.drop_last()[j]);
    } else {
        assert(w =~= seq![b] + w.drop_first());
        assert(words[words.len() - 1] == w);
    }
}

proof fn lemma_tails_after_shape(words: Seq<Seq<u8>>, b: u8, e: nat)
    requires
        is_binary(words),
        forall|i: int| 0 <= i < words.len() ==> (#[trigger] words[i]).len() <= e,
    ensures
        is_binary(tails_after(words, b)),
        forall|i: int|
            0 <= i < tails_after(words, b).len() ==> (#[trigger] tails_after(words, b)[i]).len() + 1
                <= e,
{
    let t = tails_after(words, b);
    assert forall|i: int| 0 <= i < t.len() implies (#[trigger] t[i]).len() + 1 <= e
        && forall|k: int| 0 <= k < t[i].len() ==> #[trigger] t[i][k] <= 1 by {
        lemma_tails_after_source(words, b, i);
        let j = choose|j: int| 0 <= j < words.len() && #[trigger] words[j] == seq![b] + t[i];
        assert forall|k: int| 0 <= k < t[i].len() implies #[trigger] t[i][k] <= 1 by {
            assert(words[j][k + 1] == t[i][k]);
        }
    }
}

proof fn lemma_tails_after_prefix_free(words: Seq<Seq<u8>>, b: u8)
    requires
        is_prefix_free(words),
    ensures
        is_prefix_free(tails_after(words, b)),
    decreases words.len(),
{
    if words.len() > 0 {
        let init = words.drop_last();
        assert(is_prefix_free(init)) by {
            assert forall|i: int, j: int|
                0 <= i < init.len() && 0 <= j < init.len() && i != j implies !is_prefix_of(
                #[trigger] init[i],
                #[trigger] init[j],
            ) by {
                assert(init[i] == words[i] && init[j] == words[j]);
            }
        }
        lemma_tails_after_prefix_free(init, b);
        let rest = tails_after(init, b);
        let w = words.last();
        let last = words.len() - 1;
        if w.len() > 0 && w[0] == b {
            let t = rest.push(w.drop_first());
            assert(w =~= seq![b] + w.drop_first());
            assert forall|i: int, j: int|
                0 <= i < t.len() && 0 <= j < t.len() && i != j implies !is_prefix_of(
                #[trigger] t[i],
                #[trigger] t[j],
            ) by {
                if i < rest.len() && j < rest.len() {
                } else if i < rest.len() {
                    lemma_tails_after_source(init, b, i);
                    let k = choose|k: int| 0 <= k < init.len() && #[trigger] init[k] == seq![b] + rest[i];
                    assert(words[k] == init[k]);
                    if is_prefix_of(t[i], t[j]) {
                        assert((seq![b] + t[j]).subrange(0, (seq![b] + t[i]).len() as int)
                            =~= seq![b] + t[j].subrange(0, t[i].len() as int));
                        assert(is_prefix_of(words[k], words[last]));
                    }
                } else {
                    lemma_tails_after_source(init, b, j);
                    let k = choose|k: int| 0 <= k < init.len() && #[trigger] init[k] == seq![b] + rest[j];
                    assert(words[k] == init[k]);
                    if is_prefix_of(t[i], t[j]) {
                        assert((seq![b] + t[j]).subrange(0, (seq![b] + t[i]).len() as int)
                            =~= seq![b] + t[j].subrange(0, t[i].len() as int));
                        assert(is_prefix_of(words[last], words[k]));
                    }
                }
            }
        }
    }
}

proof fn lemma_word_sum_split(words: Seq<Seq<u8>>, e: nat)
    requires
        e >= 1,
        is_binary(words),
        forall|i: int| 0 <= i < words.len() ==> 1 <= (#[trigger] words[i]).len() <= e,
    ensures
        word_sum(words, e) == word_sum(tails_after(words, 0), (e - 1) as nat) + word_sum(
            tails_after(words, 1),
            (e - 1) as nat,
        ),
    decreases words.len(),
{
    if words.len() > 0 {
        let init = words.drop_last();
        assert forall|i: int| 0 <= i < init.len() implies 1 <= (#[trigger] init[i]).len() <= e by {
            assert(init[i] == words[i]);
        }
        assert(is_binary(init)) by {
            assert forall|i: int, k: int| 0 <= i < init.len() && 0 <= k < init[i].len() implies #[trigger] init[i][k] <= 1 by {
                assert(init[i] == words[i]);
            }
        }
        lemma_word_sum_split(init, e);
        let w = words.last();
        assert(w == words[words.len() - 1]);
        assert(w[0] <= 1);
        let r0 = tails_after(init, 0);
        let r1 = tails_after(init, 1);
        if w[0] == 0 {
            assert(r0.push(w.drop_first()).drop_last() =~= r0);
        } else {
            assert(r1.push(w.drop_first()).drop_last() =~= r1);
        }
    }
}

proof fn lemma_word_sum_single(w: Seq<u8>, e: nat)
    ensures
        word_sum(seq![w], e) == pow2((e - w.len()) as nat),
{
    assert(seq![w].drop_last() =~= Seq::<Seq<u8>>::empty());
    assert(seq![w].last() == w);
    assert(word_sum(Seq::<Seq<u8>>::empty(), e) == 0);
}

/// Kraft inequality over every word, the empty word included.
proof fn lemma_word_sum_bound(words: Seq<Seq<u8>>, e: nat)
    requires
        is_binary(words),
        is_prefix_free(words),
        forall|i: int| 0 <= i < words.len() ==> (#[trigger] words[i]).len() <= e,
    ensures
        word_sum(words, e) <= pow2(e),
    decreases e, words.len(),
{
    if words.len() == 0 {
        vstd::arithmetic::power2::lemma_pow2_pos(e);
    } else if exists|i: int| 0 <= i < words.len() && (#[trigger] words[i]).len() == 0 {
        let i = choose|i: int| 0 <= i < words.len() && (#[trigger] words[i]).len() == 0;
        if words.len() > 1 {
            let j = if i == 0 { 1int } else { 0int };
            assert(words[i].len() == 0);
            assert(words[j].subrange(0, 0) =~= words[i]);
            assert(is_prefix_of(words[i], words[j]));
        }
        assert(words =~= seq![words[i]]);
        lemma_word_sum_single(words[i], e);
    } else {
        assert(e >= 1) by {
            assert(words[0].len() <= e);
        }
        lemma_word_sum_split(words, e);
        lemma_tails_after_shape(words, 0, e);
        lemma_tails_after_shape(words, 1, e);
        lemma_tails_after_prefix_free(words, 0);
        lemma_tails_after_prefix_free(words, 1);
        lemma_word_sum_bound(tails_after(words, 0), (e - 1) as nat);
        lemma_word_sum_bound(tails_after(words, 1), (e - 1) as nat);
        lemma_pow2_unfold(e);
    }
}

proof fn lemma_kraft_sum_at_most_word_sum(words: Seq<Seq<u8>>, lengths: Seq<usize>, e: nat)
    requires
        lengths.len() == words.len(),
        forall|i: int| 0 <= i < words.len() ==> #[trigger] lengths[i] == words[i].len(),
        forall|i: int| 0 <= i < words.len() ==> (#[trigger] words[i]).len() <= e,
    ensures
        kraft_sum_scaled(lengths, e) <= word_sum(words, e),
    decreases words.len(),
{
    if words.len() > 0 {
        lemma_kraft_sum_at_most_word_sum(words.drop_last(), lengths.drop_last(), e);
        assert(lengths.last() == words.last().len());
    }
}

/// Kraft inequality: the code words of a binary prefix-free code, none longer
/// than `e`, have lengths with `sum 2^(e - l) <= 2^e`, that is
/// `sum 2^(-l) <= 1`.
pub proof fn lemma_kraft_inequality(words: Seq<Seq<u8>>, lengths: Seq<usize>, e: nat)
    requires
        is_binary(words),
        is_prefix_free(words),
        lengths.len() == words.len(),
        forall|i: int| 0 <= i < words.len() ==> #[trigger] lengths[i] == words[i].len(),
        forall|i: int| 0 <= i < words.len() ==> (#[trigger] words[i]).len() <= e,
    ensures
        kraft_sum_scaled(lengths, e) <= pow2(e),
{
    lemma_word_sum_bound(words, e);
    lemma_kraft_sum_at_most_word_sum(words, lengths, e);
}

} // verus!
