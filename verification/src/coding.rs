//! Source coding: Huffman code trees and the code words read off them.

use vstd::prelude::*;
use vstd::arithmetic::power2::{pow2, lemma_pow2_unfold};

verus! {

/// The shape of a binary code tree: each leaf carries a symbol index, each
/// internal node has a left (bit 0) and a right (bit 1) subtree.
pub enum CodeTree {
    Leaf(usize),
    Node(Box<CodeTree>, Box<CodeTree>),
}

impl CodeTree {
    /// The symbols found at the leaves of the tree.
    pub open spec fn leaf_symbols(self) -> Set<usize>
        decreases self,
    {
        match self {
            CodeTree::Leaf(s) => set![s],
            CodeTree::Node(l, r) => l.leaf_symbols().union(r.leaf_symbols()),
        }
    }

    /// No symbol sits at two leaves.
    pub open spec fn has_distinct_leaves(self) -> bool
        decreases self,
    {
        match self {
            CodeTree::Leaf(_) => true,
            CodeTree::Node(l, r) => {
                &&& l.has_distinct_leaves()
                &&& r.has_distinct_leaves()
                &&& l.leaf_symbols().disjoint(r.leaf_symbols())
            },
        }
    }

    /// The path (0 = left, 1 = right) from the root to the leaf of `s`.
    /// Where `s` sits at several leaves, the one reached last in a
    /// left-to-right walk counts.
    pub open spec fn path_to(self, s: usize) -> Option<Seq<u8>>
        decreases self,
    {
        match self {
            CodeTree::Leaf(x) => if x == s { Some(Seq::empty()) } else { None },
            CodeTree::Node(l, r) => match r.path_to(s) {
                Some(p) => Some(seq![1u8] + p),
                None => match l.path_to(s) {
                    Some(p) => Some(seq![0u8] + p),
                    None => None,
                },
            },
        }
    }

    /// The number of edges on the longest root-to-leaf path.
    pub open spec fn height(self) -> nat
        decreases self,
    {
        match self {
            CodeTree::Leaf(_) => 0,
            CodeTree::Node(l, r) => {
                let hl = l.height();
                let hr = r.height();
                1 + if hl >= hr { hl } else { hr }
            },
        }
    }
}

/// The code word of symbol `s` in tree `t`: its path, or the empty word when
/// `s` is at no leaf.
pub open spec fn codeword(t: CodeTree, s: usize) -> Seq<u8> {
    match t.path_to(s) {
        Some(p) => p,
        None => Seq::empty(),
    }
}

/// Walks the tree left to right and writes, for each leaf, `prefix` followed
/// by the path to it into `codes` at the leaf's symbol.
pub fn extract_codes(node: &CodeTree, prefix: &mut Vec<u8>, codes: &mut Vec<Vec<u8>>)
    requires
        forall|s: usize| #[trigger] node.leaf_symbols().contains(s) ==> s < old(codes).len(),
    ensures
        final(prefix)@ == old(prefix)@,
        final(codes).len() == old(codes).len(),
        forall|s: usize|
            s < old(codes).len() ==> #[trigger] final(codes)[s as int]@ == match node.path_to(s) {
                Some(p) => old(prefix)@ + p,
                None => old(codes)[s as int]@,
            },
    decreases node,
{
    match node {
        CodeTree::Leaf(sym) => {
            assert(node.leaf_symbols().contains(*sym));
            let word = prefix.clone();
            assert(word@ =~= prefix@);
            codes[*sym] = word;
            assert forall|s: usize| s < old(codes).len() implies #[trigger] codes[s as int]@
                == match node.path_to(s) {
                Some(p) => old(prefix)@ + p,
                None => old(codes)[s as int]@,
            } by {
                if s == *sym {
                    assert(old(prefix)@ + Seq::<u8>::empty() =~= old(prefix)@);
                }
            }
        },
        CodeTree::Node(left, right) => {
            assert forall|s: usize| #[trigger] left.leaf_symbols().contains(s) implies s
                < old(codes).len() by {
                assert(node.leaf_symbols().contains(s));
            }
            assert forall|s: usize| #[trigger] right.leaf_symbols().contains(s) implies s
                < old(codes).len() by {
                assert(node.leaf_symbols().contains(s));
            }
            prefix.push(0);
            extract_codes(left, prefix, codes);
            let _ = prefix.pop();
            assert(prefix@ =~= old(prefix)@);
            prefix.push(1);
            extract_codes(right, prefix, codes);
            let _ = prefix.pop();
            assert(prefix@ =~= old(prefix)@);
            assert forall|s: usize| s < old(codes).len() implies #[trigger] codes[s as int]@
                == match node.path_to(s) {
                Some(p) => old(prefix)@ + p,
                None => old(codes)[s as int]@,
            } by {
                match right.path_to(s) {
                    Some(p) => {
                        assert(old(prefix)@.push(1u8) + p =~= old(prefix)@ + (seq![1u8] + p));
                    },
                    None => {
                        match left.path_to(s) {
                            Some(p) => {
                                assert(old(prefix)@.push(0u8) + p =~= old(prefix)@ + (seq![0u8]
                                    + p));
                            },
                            None => {},
                        }
                    },
                }
            }
        },
    }
}


/// Code words and code lengths for symbols `0..n`.
pub struct CodeBook {
    /// `codes[s]` is the code word of symbol `s`.
    pub codes: Vec<Vec<u8>>,
    /// `lengths[s]` is the length of `codes[s]`.
    pub lengths: Vec<usize>,
}

/// Reads the code words of symbols `0..num_symbols` off a code tree, and
/// their lengths. A symbol at no leaf gets the empty word.
pub fn code_book(tree: &CodeTree, num_symbols: usize) -> (book: CodeBook)
    requires
        forall|s: usize| #[trigger] tree.leaf_symbols().contains(s) ==> s < num_symbols,
    ensures
        book.codes.len() == num_symbols,
        book.lengths.len() == num_symbols,
        forall|s: usize| s < num_symbols ==> #[trigger] book.codes[s as int]@ == codeword(*tree, s),
        forall|s: usize|
            s < num_symbols ==> #[trigger] book.lengths[s as int] == codeword(*tree, s).len(),
{
    let mut codes: Vec<Vec<u8>> = Vec::new();
    let mut k: usize = 0;
    while k < num_symbols
        invariant
            k <= num_symbols,
            codes.len() == k,
            forall|s: int| 0 <= s < k ==> (#[trigger] codes[s])@ == Seq::<u8>::empty(),
        decreases num_symbols - k,
    {
        codes.push(Vec::new());
        k = k + 1;
    }
    let mut prefix: Vec<u8> = Vec::new();
    extract_codes(tree, &mut prefix, &mut codes);
    assert forall|s: usize| s < num_symbols implies #[trigger] codes[s as int]@ == codeword(
        *tree,
        s,
    ) by {
        match tree.path_to(s) {
            Some(p) => {
                assert(Seq::<u8>::empty() + p =~= p);
            },
            None => {},
        }
    }
    let mut lengths: Vec<usize> = Vec::new();
    let mut k: usize = 0;
    while k < num_symbols
        invariant
            k <= num_symbols,
            codes.len() == num_symbols,
            lengths.len() == k,
            forall|s: int| 0 <= s < k ==> #[trigger] lengths[s] == codes[s]@.len(),
        decreases num_symbols - k,
    {
        lengths.push(codes[k].len());
        k = k + 1;
    }
    CodeBook { codes, lengths }
}


/// `p` is a prefix of `q`.
pub open spec fn is_prefix_of(p: Seq<u8>, q: Seq<u8>) -> bool {
    p.len() <= q.len() && q.subrange(0, p.len() as int) == p
}

/// A symbol has a path exactly when it sits at a leaf; no path is longer than
/// the tree is high.
pub proof fn lemma_path_exists(t: CodeTree, s: usize)
    ensures
        t.path_to(s) is Some <==> t.leaf_symbols().contains(s),
        t.path_to(s) is Some ==> t.path_to(s)->0.len() <= t.height(),
    decreases t,
{
    match t {
        CodeTree::Leaf(_) => {},
        CodeTree::Node(l, r) => {
            lemma_path_exists(*l, s);
            lemma_path_exists(*r, s);
        },
    }
}

/// Every code word is over the bits 0 and 1.
pub proof fn lemma_codeword_binary(t: CodeTree, s: usize)
    ensures
        forall|k: int| 0 <= k < codeword(t, s).len() ==> #[trigger] codeword(t, s)[k] <= 1,
    decreases t,
{
    match t {
        CodeTree::Leaf(_) => {},
        CodeTree::Node(l, r) => {
            lemma_codeword_binary(*l, s);
            lemma_codeword_binary(*r, s);
            lemma_path_exists(*l, s);
            lemma_path_exists(*r, s);
            match r.path_to(s) {
                Some(p) => {
                    assert(codeword(t, s) == seq![1u8] + p);
                    assert(codeword(*r, s) == p);
                },
                None => {
                    match l.path_to(s) {
                        Some(p) => {
                            assert(codeword(t, s) == seq![0u8] + p);
                            assert(codeword(*l, s) == p);
                        },
                        None => {},
                    }
                },
            }
            assert forall|k: int| 0 <= k < codeword(t, s).len() implies #[trigger] codeword(t, s)[k] <= 1 by {
                if k > 0 {
                    match r.path_to(s) {
                        Some(p) => { assert(codeword(t, s)[k] == codeword(*r, s)[k - 1]); },
                        None => { assert(codeword(t, s)[k] == codeword(*l, s)[k - 1]); },
                    }
                }
            }
        },
    }
}

/// In a tree with distinct leaves, the path of a symbol in the left subtree
/// starts with 0 and that of a symbol in the right subtree with 1.
proof fn lemma_path_node(l: CodeTree, r: CodeTree, s: usize)
    requires
        CodeTree::Node(Box::new(l), Box::new(r)).has_distinct_leaves(),
    ensures
        l.leaf_symbols().contains(s) ==> CodeTree::Node(Box::new(l), Box::new(r)).path_to(s)
            == Some(seq![0u8] + l.path_to(s)->0),
        r.leaf_symbols().contains(s) ==> CodeTree::Node(Box::new(l), Box::new(r)).path_to(s)
            == Some(seq![1u8] + r.path_to(s)->0),
{
    lemma_path_exists(l, s);
    lemma_path_exists(r, s);
}

/// Prefix-freeness: in a tree with distinct leaves, the code word of one
/// symbol is never a prefix of the code word of another.
pub proof fn lemma_prefix_free(t: CodeTree, a: usize, b: usize)
    requires
        t.has_distinct_leaves(),
        t.leaf_symbols().contains(a),
        t.leaf_symbols().contains(b),
        a != b,
    ensures
        !is_prefix_of(codeword(t, a), codeword(t, b)),
    decreases t,
{
    match t {
        CodeTree::Leaf(_) => {},
        CodeTree::Node(l, r) => {
            lemma_path_node(*l, *r, a);
            lemma_path_node(*l, *r, b);
            let pa = codeword(t, a);
            let pb = codeword(t, b);
            if l.leaf_symbols().contains(a) && l.leaf_symbols().contains(b) {
                lemma_prefix_free(*l, a, b);
                lemma_path_exists(*l, a);
                lemma_path_exists(*l, b);
                assert(pa == seq![0u8] + codeword(*l, a));
                assert(pb == seq![0u8] + codeword(*l, b));
                if is_prefix_of(pa, pb) {
                    assert(pb.subrange(1, pa.len() as int) =~= pa.subrange(1, pa.len() as int));
                    assert(pa.subrange(1, pa.len() as int) =~= codeword(*l, a));
                    assert(codeword(*l, b).subrange(0, codeword(*l, a).len() as int)
                        =~= pb.subrange(1, pa.len() as int));
                }
            } else if r.leaf_symbols().contains(a) && r.leaf_symbols().contains(b) {
                lemma_prefix_free(*r, a, b);
                lemma_path_exists(*r, a);
                lemma_path_exists(*r, b);
                assert(pa == seq![1u8] + codeword(*r, a));
                assert(pb == seq![1u8] + codeword(*r, b));
                if is_prefix_of(pa, pb) {
                    assert(pb.subrange(1, pa.len() as int) =~= pa.subrange(1, pa.len() as int));
                    assert(pa.subrange(1, pa.len() as int) =~= codeword(*r, a));
                    assert(codeword(*r, b).subrange(0, codeword(*r, a).len() as int)
                        =~= pb.subrange(1, pa.len() as int));
                }
            } else {
                if is_prefix_of(pa, pb) {
                    assert(pb.subrange(0, pa.len() as int)[0] == pa[0]);
                }
            }
        },
    }
}

/// `2^e` times the Kraft sum of the code lengths, counting only lengths
/// between 1 and `e` (a length of 0 stands for no code word and adds nothing).
pub open spec fn kraft_sum_scaled(lengths: Seq<usize>, e: nat) -> int
    decreases lengths.len(),
{
    if lengths.len() == 0 {
        0
    } else {
        let l = lengths.last();
        kraft_sum_scaled(lengths.drop_last(), e) + if 0 < l && l <= e {
            pow2((e - l) as nat) as int
        } else {
            0
        }
    }
}

/// The share `2^(e - depth)` of symbol `s` in tree `t`, or 0 where `s` is at
/// no leaf.
spec fn leaf_share(t: CodeTree, e: nat, s: usize) -> int {
    match t.path_to(s) {
        Some(p) => if p.len() <= e { pow2((e - p.len()) as nat) as int } else { 0 },
        None => 0,
    }
}

spec fn share_sum(t: CodeTree, e: nat, m: nat) -> int
    decreases m,
{
    if m == 0 {
        0
    } else {
        share_sum(t, e, (m - 1) as nat) + leaf_share(t, e, (m - 1) as usize)
    }
}

proof fn lemma_share_sum_leaf(x: usize, e: nat, m: nat)
    requires
        m <= usize::MAX + 1,
    ensures
        share_sum(CodeTree::Leaf(x), e, m) == if x < m { pow2(e) as int } else { 0 },
    decreases m,
{
    if m > 0 {
        lemma_share_sum_leaf(x, e, (m - 1) as nat);
    }
}

proof fn lemma_share_sum_node(l: CodeTree, r: CodeTree, e: nat, m: nat)
    requires
        CodeTree::Node(Box::new(l), Box::new(r)).has_distinct_leaves(),
        e >= 1,
        m <= usize::MAX + 1,
    ensures
        share_sum(CodeTree::Node(Box::new(l), Box::new(r)), e, m) == share_sum(
            l,
            (e - 1) as nat,
            m,
        ) + share_sum(r, (e - 1) as nat, m),
    decreases m,
{
    let t = CodeTree::Node(Box::new(l), Box::new(r));
    if m > 0 {
        lemma_share_sum_node(l, r, e, (m - 1) as nat);
        let s = (m - 1) as usize;
        lemma_path_node(l, r, s);
        lemma_path_exists(l, s);
        lemma_path_exists(r, s);
        lemma_path_exists(t, s);
        if l.leaf_symbols().contains(s) {
            let p = l.path_to(s)->0;
            assert((seq![0u8] + p).len() == p.len() + 1);
        } else if r.leaf_symbols().contains(s) {
            let p = r.path_to(s)->0;
            assert((seq![1u8] + p).len() == p.len() + 1);
        }
    }
}

/// The shares of the leaves of a tree no higher than `e` add up to `2^e`.
proof fn lemma_share_sum_total(t: CodeTree, e: nat, m: nat)
    requires
        t.has_distinct_leaves(),
        t.height() <= e,
        m <= usize::MAX + 1,
        forall|s: usize| #[trigger] t.leaf_symbols().contains(s) ==> s < m,
    ensures
        share_sum(t, e, m) == pow2(e),
    decreases t,
{
    match t {
        CodeTree::Leaf(x) => {
            assert(t.leaf_symbols().contains(x));
            lemma_share_sum_leaf(x, e, m);
        },
        CodeTree::Node(l, r) => {
            assert forall|s: usize| #[trigger] l.leaf_symbols().contains(s) implies s < m by {
                assert(t.leaf_symbols().contains(s));
            }
            assert forall|s: usize| #[trigger] r.leaf_symbols().contains(s) implies s < m by {
                assert(t.leaf_symbols().contains(s));
            }
            lemma_share_sum_total(*l, (e - 1) as nat, m);
            lemma_share_sum_total(*r, (e - 1) as nat, m);
            lemma_share_sum_node(*l, *r, e, m);
            lemma_pow2_unfold(e);
        },
    }
}

proof fn lemma_kraft_prefix(t: CodeTree, lengths: Seq<usize>, e: nat, m: nat)
    requires
        t matches CodeTree::Node(_, _),
        t.has_distinct_leaves(),
        t.height() <= e,
        m <= lengths.len(),
        lengths.len() <= usize::MAX + 1,
        forall|s: usize| s < lengths.len() ==> #[trigger] lengths[s as int] == codeword(t, s).len(),
    ensures
        kraft_sum_scaled(lengths.take(m as int), e) == share_sum(t, e, m),
    decreases m,
{
    if m > 0 {
        lemma_kraft_prefix(t, lengths, e, (m - 1) as nat);
        assert(lengths.take(m as int).drop_last() =~= lengths.take(m - 1));
        let s = (m - 1) as usize;
        assert(lengths.take(m as int)[m - 1] == lengths[s as int]);
        lemma_path_exists(t, s);
        if t.leaf_symbols().contains(s) {
            match t {
                CodeTree::Node(l, r) => {
                    lemma_path_node(*l, *r, s);
                },
                _ => {},
            }
        }
    }
}

/// Kraft equality for a complete prefix code: when a tree with distinct
/// leaves and at least two leaves gives the code lengths of symbols
/// `0..lengths.len()`, and `e` is at least its height, the lengths satisfy
/// `sum 2^(e - l) == 2^e`, that is `sum 2^(-l) == 1`.
pub proof fn lemma_kraft_equality(t: CodeTree, lengths: Seq<usize>, e: nat)
    requires
        t matches CodeTree::Node(_, _),
        t.has_distinct_leaves(),
        t.height() <= e,
        lengths.len() <= usize::MAX + 1,
        forall|s: usize| #[trigger] t.leaf_symbols().contains(s) ==> s < lengths.len(),
        forall|s: usize| s < lengths.len() ==> #[trigger] lengths[s as int] == codeword(t, s).len(),
    ensures
        kraft_sum_scaled(lengths, e) == pow2(e),
{
    lemma_kraft_prefix(t, lengths, e, lengths.len());
    assert(lengths.take(lengths.len() as int) =~= lengths);
    lemma_share_sum_total(t, e, lengths.len());
}


/// Some leaf lies as deep as the tree is high.
pub proof fn lemma_height_attained(t: CodeTree)
    requires
        t.has_distinct_leaves(),
    ensures
        exists|s: usize| #[trigger] t.leaf_symbols().contains(s) && codeword(t, s).len() == t.height(),
    decreases t,
{
    match t {
        CodeTree::Leaf(x) => {
            assert(t.leaf_symbols().contains(x) && codeword(t, x).len() == t.height());
        },
        CodeTree::Node(l, r) => {
            lemma_height_attained(*l);
            lemma_height_attained(*r);
            if l.height() >= r.height() {
                let s = choose|s: usize| #[trigger] l.leaf_symbols().contains(s) && codeword(*l, s).len() == l.height();
                lemma_path_node(*l, *r, s);
                lemma_path_exists(*l, s);
                assert(t.leaf_symbols().contains(s));
                assert(codeword(t, s).len() == t.height());
            } else {
                let s = choose|s: usize| #[trigger] r.leaf_symbols().contains(s) && codeword(*r, s).len() == r.height();
                lemma_path_node(*l, *r, s);
                lemma_path_exists(*r, s);
                assert(t.leaf_symbols().contains(s));
                assert(codeword(t, s).len() == t.height());
            }
        },
    }
}

} // verus!
