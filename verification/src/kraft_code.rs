//! The converse of the Kraft inequality: code lengths whose Kraft sum is at
//! most 1 are the lengths of some binary prefix-free code.

use vstd::prelude::*;
use vstd::arithmetic::power2::{pow2, lemma_pow2_adds, lemma_pow2_pos, lemma_pow2_unfold};
use vstd::arithmetic::div_mod::{lemma_fundamental_div_mod_converse};
use vstd::set_lib::{set_int_range, lemma_int_range, lemma_len_union, lemma_len_subset};
use crate::coding::{is_prefix_of, kraft_sum_scaled};
use crate::kraft::{is_binary, is_prefix_free, word_sum};

verus! {

/// The number a binary word spells, most significant bit first.
pub open spec fn word_value(w: Seq<u8>) -> nat
    decreases w.len(),
{
    if w.len() == 0 {
        0
    } else {
        2 * word_value(w.drop_last()) + (w.last() as nat)
    }
}

/// The binary word of length `len` that spells `v` (taken modulo `2^len`).
pub open spec fn word_of(v: nat, len: nat) -> Seq<u8>
    decreases len,
{
    if len == 0 {
        Seq::empty()
    } else {
        word_of(v / 2, (len - 1) as nat).push((v % 2) as u8)
    }
}

spec fn bits(w: Seq<u8>) -> bool {
    forall|k: int| 0 <= k < w.len() ==> #[trigger] w[k] <= 1
}

proof fn lemma_value_bound(w: Seq<u8>)
    requires
        bits(w),
    ensures
        word_value(w) < pow2(w.len()),
    decreases w.len(),
{
    if w.len() == 0 {
        lemma_pow2_pos(0);
        vstd::arithmetic::power2::lemma2_to64();
    } else {
        let i = w.drop_last();
        assert(bits(i)) by {
            assert forall|k: int| 0 <= k < i.len() implies #[trigger] i[k] <= 1 by {
                assert(i[k] == w[k]);
            }
        }
        lemma_value_bound(i);
        assert(w.last() == w[w.len() - 1]);
        lemma_pow2_unfold(w.len());
    }
}

proof fn lemma_value_concat(p: Seq<u8>, q: Seq<u8>)
    ensures
        word_value(p + q) == word_value(p) * pow2(q.len()) + word_value(q),
    decreases q.len(),
{
    if q.len() == 0 {
        assert(p + q =~= p);
        vstd::arithmetic::power2::lemma2_to64();
        assert(word_value(p) * pow2(0) == word_value(p) * 1);
    } else {
        let qi = q.drop_last();
        lemma_value_concat(p, qi);
        assert((p + q).drop_last() =~= p + qi);
        assert((p + q).last() == q.last());
        lemma_pow2_unfold(q.len());
        let a = word_value(p);
        let b = pow2(qi.len());
        assert(2 * (a * b) == a * (2 * b)) by (nonlinear_arith);
        assert(word_value(p + q) == 2 * word_value(p + qi) + (q.last() as nat));
        assert(word_value(q) == 2 * word_value(qi) + (q.last() as nat));
    }
}

proof fn lemma_word_of(v: nat, len: nat)
    requires
        v < pow2(len),
    ensures
        word_of(v, len).len() == len,
        bits(word_of(v, len)),
        word_value(word_of(v, len)) == v,
    decreases len,
{
    if len == 0 {
        vstd::arithmetic::power2::lemma2_to64();
    } else {
        lemma_pow2_unfold(len);
        lemma_word_of(v / 2, (len - 1) as nat);
        let w = word_of(v, len);
        assert(w.drop_last() =~= word_of(v / 2, (len - 1) as nat));
        assert forall|k: int| 0 <= k < w.len() implies #[trigger] w[k] <= 1 by {
            if k < w.len() - 1 {
                assert(w[k] == w.drop_last()[k]);
            }
        }
    }
}

proof fn lemma_value_injective(u: Seq<u8>, w: Seq<u8>)
    requires
        bits(u),
        bits(w),
        u.len() == w.len(),
        word_value(u) == word_value(w),
    ensures
        u == w,
    decreases u.len(),
{
    if u.len() > 0 {
        let ui = u.drop_last();
        let wi = w.drop_last();
        assert(bits(ui)) by {
            assert forall|k: int| 0 <= k < ui.len() implies #[trigger] ui[k] <= 1 by {
                assert(ui[k] == u[k]);
            }
        }
        assert(bits(wi)) by {
            assert forall|k: int| 0 <= k < wi.len() implies #[trigger] wi[k] <= 1 by {
                assert(wi[k] == w[k]);
            }
        }
        assert(u.last() == u[u.len() - 1] && w.last() == w[w.len() - 1]);
        lemma_value_injective(ui, wi);
        assert(u =~= ui.push(u.last()));
        assert(w =~= wi.push(w.last()));
    }
}


proof fn lemma_bits_subrange(w: Seq<u8>, a: int, b: int)
    requires
        bits(w),
        0 <= a <= b <= w.len(),
    ensures
        bits(w.subrange(a, b)),
{
    assert forall|k: int| 0 <= k < w.subrange(a, b).len() implies #[trigger] w.subrange(a, b)[k] <= 1 by {
        assert(w.subrange(a, b)[k] == w[a + k]);
    }
}

/// A word is a prefix of a longer one exactly when the longer one's value,
/// shifted right by the difference of lengths, is the shorter one's value.
proof fn lemma_prefix_by_value(w: Seq<u8>, u: Seq<u8>)
    requires
        bits(w),
        bits(u),
        w.len() <= u.len(),
    ensures
        is_prefix_of(w, u) <==> (word_value(u) as int) / (pow2((u.len() - w.len()) as nat) as int)
            == word_value(w),
{
    let l = w.len() as int;
    let h = u.subrange(0, l);
    let t = u.subrange(l, u.len() as int);
    assert(u =~= h + t);
    lemma_bits_subrange(u, 0, l);
    lemma_bits_subrange(u, l, u.len() as int);
    lemma_value_concat(h, t);
    lemma_value_bound(t);
    let d = pow2(t.len()) as int;
    lemma_fundamental_div_mod_converse(
        word_value(u) as int,
        d,
        word_value(h) as int,
        word_value(t) as int,
    );
    if word_value(h) == word_value(w) {
        lemma_value_injective(h, w);
    }
}

/// The values of the words of length `len` that start with `w`.
spec fn block(w: Seq<u8>, len: nat) -> Set<int> {
    let d = pow2((len - w.len()) as nat) as int;
    set_int_range(word_value(w) * d, (word_value(w) + 1) * d)
}

proof fn lemma_block(w: Seq<u8>, len: nat, v: int)
    requires
        w.len() <= len,
        v >= 0,
    ensures
        block(w, len).finite(),
        block(w, len).len() == pow2((len - w.len()) as nat),
        block(w, len).contains(v) <==> v / (pow2((len - w.len()) as nat) as int) == word_value(w),
{
    let d = pow2((len - w.len()) as nat) as int;
    let q = word_value(w) as int;
    lemma_pow2_pos((len - w.len()) as nat);
    assert((q + 1) * d == q * d + d) by (nonlinear_arith);
    lemma_int_range(q * d, (q + 1) * d);
    if block(w, len).contains(v) {
        lemma_fundamental_div_mod_converse(v, d, q, v - q * d);
    }
    if v / d == q {
        vstd::arithmetic::div_mod::lemma_fundamental_div_mod(v, d);
        vstd::arithmetic::div_mod::lemma_mod_bound(v, d);
        assert(d * (v / d) == q * d) by (nonlinear_arith)
            requires
                v / d == q,
        ;
    }
}

/// The values of the words of length `len` that start with one of `ws`.
spec fn covered(ws: Seq<Seq<u8>>, len: nat) -> Set<int>
    decreases ws.len(),
{
    if ws.len() == 0 {
        Set::empty()
    } else {
        covered(ws.drop_last(), len).union(block(ws.last(), len))
    }
}

proof fn lemma_covered(ws: Seq<Seq<u8>>, len: nat)
    requires
        forall|j: int| 0 <= j < ws.len() ==> (#[trigger] ws[j]).len() <= len,
    ensures
        covered(ws, len).finite(),
        covered(ws, len).len() <= word_sum(ws, len),
        forall|j: int, v: int|
            0 <= j < ws.len() && #[trigger] block(ws[j], len).contains(v) ==> #[trigger] covered(
                ws,
                len,
            ).contains(v),
    decreases ws.len(),
{
    if ws.len() > 0 {
        let init = ws.drop_last();
        assert forall|j: int| 0 <= j < init.len() implies (#[trigger] init[j]).len() <= len by {
            assert(init[j] == ws[j]);
        }
        lemma_covered(init, len);
        assert(ws.last() == ws[ws.len() - 1]);
        lemma_block(ws.last(), len, 0);
        lemma_len_union(covered(init, len), block(ws.last(), len));
        assert forall|j: int, v: int|
            0 <= j < ws.len() && #[trigger] block(ws[j], len).contains(v) implies #[trigger] covered(
            ws,
            len,
        ).contains(v) by {
            if j < init.len() {
                assert(init[j] == ws[j]);
                assert(block(init[j], len).contains(v));
            }
        }
    }
}

/// With every length between 1 and `l`, and `l <= e`, the Kraft sum at scale
/// `e` is `2^(e - l)` times the one at scale `l`.
proof fn lemma_kraft_rescale(lengths: Seq<usize>, l: nat, e: nat)
    requires
        l <= e,
        forall|i: int| 0 <= i < lengths.len() ==> 1 <= #[trigger] lengths[i] <= l,
    ensures
        kraft_sum_scaled(lengths, e) == pow2((e - l) as nat) * kraft_sum_scaled(lengths, l),
    decreases lengths.len(),
{
    if lengths.len() > 0 {
        let init = lengths.drop_last();
        assert forall|i: int| 0 <= i < init.len() implies 1 <= #[trigger] init[i] <= l by {
            assert(init[i] == lengths[i]);
        }
        lemma_kraft_rescale(init, l, e);
        let x = lengths.last();
        assert(x == lengths[lengths.len() - 1]);
        lemma_pow2_adds((e - l) as nat, (l - x) as nat);
        assert(((e - l) as nat + (l - x) as nat) as nat == (e - x) as nat);
        let c = pow2((e - l) as nat) as int;
        let a = kraft_sum_scaled(init, l);
        let b = pow2((l - x) as nat) as int;
        assert(c * a + c * b == c * (a + b)) by (nonlinear_arith);
    }
}

/// Taking one length out takes its share out of the Kraft sum.
proof fn lemma_kraft_remove(lengths: Seq<usize>, e: nat, m: int)
    requires
        0 <= m < lengths.len(),
    ensures
        kraft_sum_scaled(lengths, e) == kraft_sum_scaled(lengths.remove(m), e) + if 0
            < lengths[m] && lengths[m] <= e {
            pow2((e - lengths[m]) as nat) as int
        } else {
            0
        },
    decreases lengths.len(),
{
    if m == lengths.len() - 1 {
        assert(lengths.remove(m) =~= lengths.drop_last());
    } else {
        lemma_kraft_remove(lengths.drop_last(), e, m);
        assert(lengths.remove(m).drop_last() =~= lengths.drop_last().remove(m));
        assert(lengths.remove(m).last() == lengths.last());
    }
}

proof fn lemma_word_sum_of_lengths(ws: Seq<Seq<u8>>, lengths: Seq<usize>, e: nat)
    requires
        ws.len() == lengths.len(),
        forall|i: int| 0 <= i < ws.len() ==> (#[trigger] ws[i]).len() == lengths[i],
        forall|i: int| 0 <= i < lengths.len() ==> 1 <= #[trigger] lengths[i] <= e,
    ensures
        word_sum(ws, e) == kraft_sum_scaled(lengths, e),
    decreases ws.len(),
{
    if ws.len() > 0 {
        let wi = ws.drop_last();
        let li = lengths.drop_last();
        assert forall|i: int| 0 <= i < wi.len() implies (#[trigger] wi[i]).len() == li[i] by {
            assert(wi[i] == ws[i] && li[i] == lengths[i]);
        }
        assert forall|i: int| 0 <= i < li.len() implies 1 <= #[trigger] li[i] <= e by {
            assert(li[i] == lengths[i]);
        }
        lemma_word_sum_of_lengths(wi, li, e);
        assert(ws.last() == ws[ws.len() - 1]);
        assert(lengths.last() == lengths[lengths.len() - 1]);
    }
}

/// The index of a largest length (the last one, among equals).
spec fn longest_index(lengths: Seq<usize>) -> int
    decreases lengths.len(),
{
    if lengths.len() <= 1 {
        0
    } else {
        let k = longest_index(lengths.drop_last());
        if lengths.last() >= lengths[k] {
            lengths.len() - 1
        } else {
            k
        }
    }
}

proof fn lemma_longest_index(lengths: Seq<usize>)
    requires
        lengths.len() > 0,
    ensures
        0 <= longest_index(lengths) < lengths.len(),
        forall|i: int| 0 <= i < lengths.len() ==> #[trigger] lengths[i] <= lengths[longest_index(lengths)],
    decreases lengths.len(),
{
    if lengths.len() > 1 {
        let init = lengths.drop_last();
        lemma_longest_index(init);
        assert forall|i: int| 0 <= i < lengths.len() implies #[trigger] lengths[i] <= lengths[longest_index(lengths)] by {
            if i < init.len() {
                assert(init[i] == lengths[i]);
            }
            assert(init[longest_index(init)] == lengths[longest_index(init)]);
        }
    }
}

/// A binary prefix-free code with the given lengths, built longest word last.
proof fn code_with_lengths(lengths: Seq<usize>, e: nat) -> (words: Seq<Seq<u8>>)
    requires
        forall|i: int| 0 <= i < lengths.len() ==> 1 <= #[trigger] lengths[i] <= e,
        kraft_sum_scaled(lengths, e) <= pow2(e),
    ensures
        words.len() == lengths.len(),
        is_binary(words),
        is_prefix_free(words),
        forall|i: int| 0 <= i < words.len() ==> (#[trigger] words[i]).len() == lengths[i],
    decreases lengths.len(),
{
    if lengths.len() == 0 {
        Seq::empty()
    } else {
        lemma_longest_index(lengths);
        let m = longest_index(lengths);
        let l = lengths[m] as nat;
        let rest = lengths.remove(m);
        assert forall|i: int| 0 <= i < rest.len() implies 1 <= #[trigger] rest[i] <= l by {
            if i < m {
                assert(rest[i] == lengths[i]);
            } else {
                assert(rest[i] == lengths[i + 1]);
            }
        }
        lemma_kraft_remove(lengths, e, m);
        let ws = code_with_lengths(rest, e);
        // The shorter words fill less than the whole space of words of length `l`.
        lemma_kraft_rescale(rest, l, e);
        let c = pow2((e - l) as nat) as int;
        let kl = kraft_sum_scaled(rest, l);
        lemma_pow2_adds((e - l) as nat, l);
        assert(((e - l) as nat + l) as nat == e);
        lemma_pow2_pos((e - l) as nat);
        assert(kl + 1 <= pow2(l)) by (nonlinear_arith)
            requires
                c > 0,
                c * kl + c <= c * pow2(l),
        ;
        lemma_word_sum_of_lengths(ws, rest, l);
        lemma_covered(ws, l);
        let all = set_int_range(0, pow2(l) as int);
        lemma_int_range(0, pow2(l) as int);
        if all.subset_of(covered(ws, l)) {
            lemma_len_subset(all, covered(ws, l));
        }
        let v = choose|v: int| all.contains(v) && !covered(ws, l).contains(v);
        lemma_word_of(v as nat, l);
        let u = word_of(v as nat, l);
        let words = ws.insert(m, u);
        assert forall|i: int, k: int|
            0 <= i < words.len() && 0 <= k < words[i].len() implies #[trigger] words[i][k] <= 1 by {
            if i < m {
                assert(words[i] == ws[i]);
            } else if i > m {
                assert(words[i] == ws[i - 1]);
            }
        }
        assert forall|i: int| 0 <= i < words.len() implies (#[trigger] words[i]).len() == lengths[i] by {
            if i < m {
                assert(words[i] == ws[i]);
                assert(rest[i] == lengths[i]);
            } else if i > m {
                assert(words[i] == ws[i - 1]);
                assert(rest[i - 1] == lengths[i]);
            }
        }
        // A shorter word is never a prefix of `u`: its block would hold `v`.
        assert forall|j: int| 0 <= j < ws.len() implies !is_prefix_of(#[trigger] ws[j], u) by {
            assert(bits(ws[j])) by {
                assert forall|k: int| 0 <= k < ws[j].len() implies #[trigger] ws[j][k] <= 1 by {
                    assert(ws[j][k] <= 1);
                }
            }
            lemma_prefix_by_value(ws[j], u);
            lemma_block(ws[j], l, v);
        }
        // Nor is `u` a prefix of another word, as no word is longer.
        assert forall|j: int| 0 <= j < ws.len() implies !is_prefix_of(u, #[trigger] ws[j]) by {
            if is_prefix_of(u, ws[j]) {
                assert(ws[j] =~= ws[j].subrange(0, u.len() as int));
                assert(ws[j].subrange(0, ws[j].len() as int) =~= ws[j]);
                assert(is_prefix_of(ws[j], u));
            }
        }
        assert forall|i: int, j: int|
            0 <= i < words.len() && 0 <= j < words.len() && i != j implies !is_prefix_of(
            #[trigger] words[i],
            #[trigger] words[j],
        ) by {
            let i2 = if i < m { i } else { i - 1 };
            let j2 = if j < m { j } else { j - 1 };
            if i == m {
                assert(words[j] == ws[j2]);
            } else if j == m {
                assert(words[i] == ws[i2]);
            } else {
                assert(words[i] == ws[i2]);
                assert(words[j] == ws[j2]);
            }
        }
        words
    }
}

/// Converse of the Kraft inequality: lengths between 1 and `e` with
/// `sum 2^(e - l) <= 2^e` (that is, `sum 2^(-l) <= 1`) are the lengths of the
/// words of some binary prefix-free code.
pub proof fn lemma_kraft_converse(lengths: Seq<usize>, e: nat)
    requires
        forall|i: int| 0 <= i < lengths.len() ==> 1 <= #[trigger] lengths[i] <= e,
        kraft_sum_scaled(lengths, e) <= pow2(e),
    ensures
        exists|words: Seq<Seq<u8>>|
            #[trigger] is_prefix_free(words) && is_binary(words) && words.len() == lengths.len()
                && forall|i: int| 0 <= i < words.len() ==> (#[trigger] words[i]).len() == lengths[i],
{
    let words = code_with_lengths(lengths, e);
    assert(is_prefix_free(words));
}

} // verus!
