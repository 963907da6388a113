//! Building a Huffman code tree: a forest that starts with one leaf per symbol
//! and in which two trees are merged at a time until one is left. Which two
//! trees are merged next (the two of least probability) is decided by the
//! caller; the forest keeps every symbol at exactly one leaf throughout.

use vstd::prelude::*;
use vstd::arithmetic::power2::pow2;
use crate::coding::{
    CodeBook, CodeTree, code_book, codeword, is_prefix_of, kraft_sum_scaled, lemma_height_attained,
    lemma_codeword_binary, lemma_kraft_equality, lemma_path_exists, lemma_prefix_free,
};
use crate::kraft::{is_binary, is_prefix_free};

verus! {

/// The number of occupied slots.
pub open spec fn live_count(slots: Seq<Option<CodeTree>>) -> nat
    decreases slots.len(),
{
    if slots.len() == 0 {
        0
    } else {
        live_count(slots.drop_last()) + if slots.last() is Some { 1nat } else { 0nat }
    }
}

/// The forest invariant: every occupied slot holds a tree with distinct
/// leaves, all below `n`; no symbol is in two occupied slots; every symbol
/// below `n` is in some occupied slot; `live` counts the occupied slots.
pub open spec fn forest_wf(slots: Seq<Option<CodeTree>>, n: nat, live: nat) -> bool {
    &&& live == live_count(slots)
    &&& forall|k: int|
        0 <= k < slots.len() && (#[trigger] slots[k]) is Some ==> {
            &&& slots[k]->0.has_distinct_leaves()
            &&& forall|s: usize| #[trigger] slots[k]->0.leaf_symbols().contains(s) ==> s < n
        }
    &&& forall|k1: int, k2: int|
        0 <= k1 < slots.len() && 0 <= k2 < slots.len() && k1 != k2 && (#[trigger] slots[k1]) is Some
            && (#[trigger] slots[k2]) is Some ==> slots[k1]->0.leaf_symbols().disjoint(
            slots[k2]->0.leaf_symbols(),
        )
    &&& forall|s: usize| s < n ==> #[trigger] in_some_tree(slots, s)
}

/// Symbol `s` is at a leaf of the tree in some occupied slot.
pub open spec fn in_some_tree(slots: Seq<Option<CodeTree>>, s: usize) -> bool {
    exists|k: int|
        0 <= k < slots.len() && slots[k] is Some && #[trigger] slots[k]->0.leaf_symbols().contains(s)
}

proof fn lemma_live_count_update_none(slots: Seq<Option<CodeTree>>, i: int)
    requires
        0 <= i < slots.len(),
        slots[i] is Some,
    ensures
        live_count(slots.update(i, None)) + 1 == live_count(slots),
    decreases slots.len(),
{
    let u = slots.update(i, None);
    if i == slots.len() - 1 {
        assert(u.drop_last() =~= slots.drop_last());
    } else {
        lemma_live_count_update_none(slots.drop_last(), i);
        assert(u.drop_last() =~= slots.drop_last().update(i, None));
    }
}

proof fn lemma_live_count_push(slots: Seq<Option<CodeTree>>, x: Option<CodeTree>)
    ensures
        live_count(slots.push(x)) == live_count(slots) + if x is Some { 1nat } else { 0nat },
{
    assert(slots.push(x).drop_last() =~= slots);
}

proof fn lemma_single_live(slots: Seq<Option<CodeTree>>, i: int, k: int)
    requires
        0 <= i < slots.len(),
        0 <= k < slots.len(),
        i != k,
        slots[i] is Some,
        live_count(slots) == 1,
    ensures
        slots[k] is None,
{
    if slots[k] is Some {
        lemma_at_least_two(slots, i, k);
    }
}

proof fn lemma_at_least_two(slots: Seq<Option<CodeTree>>, i: int, k: int)
    requires
        0 <= i < slots.len(),
        0 <= k < slots.len(),
        i != k,
        slots[i] is Some,
        slots[k] is Some,
    ensures
        live_count(slots) >= 2,
    decreases slots.len(),
{
    let last = slots.len() - 1;
    if i == last {
        lemma_at_least_one(slots.drop_last(), k);
    } else if k == last {
        lemma_at_least_one(slots.drop_last(), i);
    } else {
        lemma_at_least_two(slots.drop_last(), i, k);
    }
}

proof fn lemma_at_least_one(slots: Seq<Option<CodeTree>>, i: int)
    requires
        0 <= i < slots.len(),
        slots[i] is Some,
    ensures
        live_count(slots) >= 1,
    decreases slots.len(),
{
    if i != slots.len() - 1 {
        lemma_at_least_one(slots.drop_last(), i);
    }
}

/// A forest of code trees held in slots; a merged pair leaves two empty slots
/// and fills a new one at the end.
pub struct HuffmanForest {
    slots: Vec<Option<CodeTree>>,
    live: usize,
    num_symbols: usize,
}

impl View for HuffmanForest {
    type V = Seq<Option<CodeTree>>;

    closed spec fn view(&self) -> Seq<Option<CodeTree>> {
        self.slots@
    }
}

impl HuffmanForest {
    /// The number of symbols the forest was made for.
    pub closed spec fn symbol_count(&self) -> nat {
        self.num_symbols as nat
    }

    /// The forest invariant (see `forest_wf`), which every forest keeps.
    #[verifier::type_invariant]
    spec fn wf(&self) -> bool {
        forest_wf(self.slots@, self.num_symbols as nat, self.live as nat)
    }

    /// One leaf per symbol: slot `s` holds the leaf of symbol `s`.
    pub fn new(num_symbols: usize) -> (forest: Self)
        ensures
            forest.symbol_count() == num_symbols,
            forest@.len() == num_symbols,
            forall|s: int| 0 <= s < num_symbols ==> #[trigger] forest@[s] == Some(CodeTree::Leaf(s as usize)),
            live_count(forest@) == num_symbols,
    {
        let mut slots: Vec<Option<CodeTree>> = Vec::new();
        let mut k: usize = 0;
        while k < num_symbols
            invariant
                k <= num_symbols,
                slots.len() == k,
                forall|s: int| 0 <= s < k ==> #[trigger] slots[s] == Some(CodeTree::Leaf(s as usize)),
                live_count(slots@) == k,
            decreases num_symbols - k,
        {
            proof {
                lemma_live_count_push(slots@, Some(CodeTree::Leaf(k)));
            }
            slots.push(Some(CodeTree::Leaf(k)));
            k = k + 1;
        }
        assert forall|s: usize| s < num_symbols implies #[trigger] in_some_tree(slots@, s) by {
            assert(slots@[s as int]->0.leaf_symbols().contains(s));
        }
        HuffmanForest { slots, live: num_symbols, num_symbols }
    }

    /// The number of trees in the forest.
    pub fn tree_count(&self) -> (count: usize)
        ensures
            count == live_count(self@),
    {
        proof {
            use_type_invariant(self);
        }
        self.live
    }

    /// Slot `slot` exists and holds a tree.
    pub fn holds_tree(&self, slot: usize) -> (b: bool)
        ensures
            b == (slot < self@.len() && self@[slot as int] is Some),
    {
        slot < self.slots.len() && self.slots[slot].is_some()
    }

    /// The number of slots, occupied or not.
    pub fn slot_count(&self) -> (count: usize)
        ensures
            count == self@.len(),
    {
        self.slots.len()
    }

    fn take_slot(slots: &mut Vec<Option<CodeTree>>, i: usize) -> (tree: Option<CodeTree>)
        requires
            i < old(slots).len(),
        ensures
            tree == old(slots)@[i as int],
            final(slots)@ == old(slots)@.update(i as int, None),
    {
        slots.push(None);
        let tree = slots.swap_remove(i);
        assert(slots@ =~= old(slots)@.update(i as int, None));
        tree
    }

    /// Merges the trees in slots `left` and `right` into one node (`left`
    /// under bit 0, `right` under bit 1), placed in a new slot at the end;
    /// both slots are emptied. Returns the new slot's index.
    pub fn merge(&mut self, left: usize, right: usize) -> (slot: usize)
        requires
            left < old(self)@.len(),
            right < old(self)@.len(),
            left != right,
            old(self)@[left as int] is Some,
            old(self)@[right as int] is Some,
            old(self)@.len() < usize::MAX,
        ensures
            final(self).symbol_count() == old(self).symbol_count(),
            slot == old(self)@.len(),
            final(self)@ == old(self)@.update(left as int, None).update(right as int, None).push(
                Some(
                    CodeTree::Node(
                        Box::new(old(self)@[left as int]->0),
                        Box::new(old(self)@[right as int]->0),
                    ),
                ),
            ),
            live_count(final(self)@) + 1 == live_count(old(self)@),
    {
        proof {
            use_type_invariant(&*self);
        }
        let mut taken = HuffmanForest { slots: Vec::new(), live: 0, num_symbols: 0 };
        std::mem::swap(&mut taken, self);
        proof {
            use_type_invariant(&taken);
        }
        let HuffmanForest { mut slots, live, num_symbols } = taken;
        let ghost s0 = slots@;
        let ghost n = num_symbols as nat;
        let l = Self::take_slot(&mut slots, left);
        let r = Self::take_slot(&mut slots, right);
        let ghost s2 = slots@;
        proof {
            lemma_live_count_update_none(s0, left as int);
            lemma_live_count_update_none(s0.update(left as int, None), right as int);
        }
        let lt = l.unwrap();
        let rt = r.unwrap();
        let merged = CodeTree::Node(Box::new(lt), Box::new(rt));
        proof {
            lemma_live_count_push(s2, Some(merged));
            lemma_at_least_two(s0, left as int, right as int);
        }
        let slot = slots.len();
        slots.push(Some(merged));
        let ghost s3 = slots@;
        assert(merged.leaf_symbols() =~= lt.leaf_symbols().union(rt.leaf_symbols()));
        assert(lt.leaf_symbols().disjoint(rt.leaf_symbols()));
        assert forall|k: int|
            0 <= k < s3.len() && (#[trigger] s3[k]) is Some implies {
            &&& s3[k]->0.has_distinct_leaves()
            &&& forall|s: usize| #[trigger] s3[k]->0.leaf_symbols().contains(s) ==> s < n
        } by {
            if k < s2.len() {
                assert(s3[k] == s0[k]);
            }
        }
        assert forall|k1: int, k2: int|
            0 <= k1 < s3.len() && 0 <= k2 < s3.len() && k1 != k2 && (#[trigger] s3[k1]) is Some
                && (#[trigger] s3[k2]) is Some implies s3[k1]->0.leaf_symbols().disjoint(
            s3[k2]->0.leaf_symbols(),
        ) by {
            if k1 == slot as int {
                assert(s3[k2] == s0[k2]);
                assert(s0[k2] is Some);
            } else if k2 == slot as int {
                assert(s3[k1] == s0[k1]);
            } else {
                assert(s3[k1] == s0[k1]);
                assert(s3[k2] == s0[k2]);
            }
        }
        assert forall|s: usize| s < n implies #[trigger] in_some_tree(s3, s) by {
            assert(in_some_tree(s0, s));
            let k = choose|k: int|
                0 <= k < s0.len() && s0[k] is Some && #[trigger] s0[k]->0.leaf_symbols().contains(
                    s,
                );
            if k == left as int || k == right as int {
                assert(s3[slot as int]->0.leaf_symbols().contains(s));
            } else {
                assert(s3[k] == s0[k]);
            }
        }
        *self = HuffmanForest { slots, live: live - 1, num_symbols };
        slot
    }

    /// Takes the last tree out of a forest that holds one tree. That tree has
    /// every symbol below the symbol count at exactly one leaf, and no other.
    pub fn into_tree(self, slot: usize) -> (tree: CodeTree)
        requires
            slot < self@.len(),
            self@[slot as int] is Some,
            live_count(self@) == 1,
        ensures
            tree == self@[slot as int]->0,
            tree.has_distinct_leaves(),
            tree.leaf_symbols() == Set::new(|s: usize| s < self.symbol_count()),
    {
        proof {
            use_type_invariant(&self);
        }
        let ghost s0 = self.slots@;
        let ghost n = self.num_symbols as nat;
        let HuffmanForest { mut slots, live: _, num_symbols: _ } = self;
        let t = Self::take_slot(&mut slots, slot).unwrap();
        assert forall|s: usize| #[trigger] t.leaf_symbols().contains(s) <==> s < n by {
            if s < n {
                assert(in_some_tree(s0, s));
                let k = choose|k: int|
                    0 <= k < s0.len() && s0[k] is Some && #[trigger] s0[k]->0.leaf_symbols().contains(
                        s,
                    );
                if k != slot as int {
                    lemma_single_live(s0, slot as int, k);
                }
            }
        }
        assert(t.leaf_symbols() =~= Set::new(|s: usize| s < n));
        t
    }
}

/// Finishes a Huffman code once the forest holds one tree: takes that tree
/// out and reads the code words and lengths of all symbols off it. The code
/// words are over the bits 0 and 1 and prefix-free (so the Kraft inequality
/// of `kraft` applies to them); with two or more symbols every code word is non-empty and
/// the lengths meet the Kraft inequality with equality.
pub fn huffman_code_book(forest: HuffmanForest, slot: usize) -> (result: (CodeTree, CodeBook))
    requires
        slot < forest@.len(),
        forest@[slot as int] is Some,
        live_count(forest@) == 1,
    ensures
        result.0 == forest@[slot as int]->0,
        result.0.has_distinct_leaves(),
        result.0.leaf_symbols() == Set::new(|s: usize| s < forest.symbol_count()),
        result.1.codes.len() == forest.symbol_count(),
        result.1.lengths.len() == forest.symbol_count(),
        forall|s: usize|
            s < forest.symbol_count() ==> #[trigger] result.1.codes[s as int]@ == codeword(result.0, s),
        forall|s: usize|
            s < forest.symbol_count() ==> #[trigger] result.1.lengths[s as int]
                == result.1.codes[s as int]@.len(),
        forall|a: usize, b: usize|
            a < forest.symbol_count() && b < forest.symbol_count() && a != b ==> !is_prefix_of(
                #[trigger] result.1.codes[a as int]@,
                #[trigger] result.1.codes[b as int]@,
            ),
        is_binary(result.1.codes@.map_values(|c: Vec<u8>| c@)),
        is_prefix_free(result.1.codes@.map_values(|c: Vec<u8>| c@)),
        forest.symbol_count() >= 2 ==> forall|s: usize|
            s < forest.symbol_count() ==> #[trigger] result.1.lengths[s as int] >= 1,
        forest.symbol_count() >= 2 ==> forall|e: nat|
            (forall|s: int| 0 <= s < forest.symbol_count() ==> #[trigger] result.1.lengths[s] <= e)
                ==> #[trigger] kraft_sum_scaled(result.1.lengths@, e) == pow2(e),
{
    proof {
        use_type_invariant(&forest);
    }
    let n = forest.num_symbols;
    let ghost nn = forest.symbol_count();
    let tree = forest.into_tree(slot);
    let book = code_book(&tree, n);
    assert forall|a: usize, b: usize|
        a < nn && b < nn && a != b implies !is_prefix_of(
        #[trigger] book.codes[a as int]@,
        #[trigger] book.codes[b as int]@,
    ) by {
        assert(tree.leaf_symbols().contains(a));
        assert(tree.leaf_symbols().contains(b));
        lemma_prefix_free(tree, a, b);
    }
    let ghost words = book.codes@.map_values(|c: Vec<u8>| c@);
    assert forall|i: int, k: int| 0 <= i < words.len() && 0 <= k < words[i].len() implies #[trigger] words[i][k] <= 1 by {
        assert(words[i] == book.codes[i]@);
        lemma_codeword_binary(tree, i as usize);
    }
    assert forall|i: int, j: int|
        0 <= i < words.len() && 0 <= j < words.len() && i != j implies !is_prefix_of(
        #[trigger] words[i],
        #[trigger] words[j],
    ) by {
        assert(words[i] == book.codes[(i as usize) as int]@);
        assert(words[j] == book.codes[(j as usize) as int]@);
    }
    if n >= 2 {
        assert(tree.leaf_symbols().contains(0usize));
        assert(tree.leaf_symbols().contains(1usize));
        assert(tree matches CodeTree::Node(_, _));
        assert forall|s: usize| s < nn implies #[trigger] book.lengths[s as int] >= 1 by {
            assert(tree.leaf_symbols().contains(s));
            lemma_path_exists(tree, s);
            match tree {
                CodeTree::Node(l, r) => {
                    lemma_path_exists(*l, s);
                    lemma_path_exists(*r, s);
                },
                _ => {},
            }
        }
        assert forall|e: nat|
            (forall|s: int| 0 <= s < nn ==> #[trigger] book.lengths[s] <= e) implies #[trigger] kraft_sum_scaled(
            book.lengths@,
            e,
        ) == pow2(e) by {
            lemma_height_attained(tree);
            let d = choose|s: usize| #[trigger] tree.leaf_symbols().contains(s) && codeword(tree, s).len() == tree.height();
            assert(book.lengths[d as int] <= e);
            lemma_kraft_equality(tree, book.lengths@, e);
        }
    }
    (tree, book)
}

} // verus!
