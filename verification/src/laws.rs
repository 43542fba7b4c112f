//! Chain-wide laws, stated over the same spec functions the public contracts
//! use and proved once for all inputs.

use crate::chain::line_pairs;
use crate::chain::pair_count;
use crate::chain::MarkovAllNodes;
use crate::token::Tok;
use vstd::prelude::*;
use vstd::seq_lib::group_to_multiset_ensures;

verus! {

/// The number of times a whole corpus records the transition `(a, b)`: the
/// sum of each line's own pair count.
pub open spec fn corpus_count(ls: Seq<Seq<Seq<char>>>, a: Tok, b: Tok) -> nat
    decreases ls.len(),
{
    if ls.len() == 0 {
        0
    } else {
        corpus_count(ls.drop_last(), a, b) + pair_count(line_pairs(ls.last()), a, b)
    }
}

/// Taking one line out of a corpus takes out exactly that line's counts.
proof fn lemma_corpus_count_remove(ls: Seq<Seq<Seq<char>>>, i: int, a: Tok, b: Tok)
    requires
        0 <= i < ls.len(),
    ensures
        corpus_count(ls, a, b) == corpus_count(ls.remove(i), a, b) + pair_count(
            line_pairs(ls[i]),
            a,
            b,
        ),
    decreases ls.len(),
{
    if i == ls.len() - 1 {
        assert(ls.remove(i) =~= ls.drop_last());
    } else {
        assert(ls.remove(i).drop_last() =~= ls.drop_last().remove(i));
        assert(ls.remove(i).last() == ls.last());
        lemma_corpus_count_remove(ls.drop_last(), i, a, b);
    }
}

/// Determinism of structure: two corpora made of the same lines, in any
/// order, record the same count for every transition. Since `ingest` adds to
/// each transition's weight exactly its line's `pair_count`, the weights a
/// chain holds after ingesting a corpus depend only on which lines were
/// ingested, not on the order (or parallel interleaving) they arrived in.
pub proof fn lemma_corpus_order_independent(
    l1: Seq<Seq<Seq<char>>>,
    l2: Seq<Seq<Seq<char>>>,
    a: Tok,
    b: Tok,
)
    requires
        l1.to_multiset() == l2.to_multiset(),
    ensures
        corpus_count(l1, a, b) == corpus_count(l2, a, b),
    decreases l1.len(),
{
    broadcast use group_to_multiset_ensures;

    if l1.len() == 0 {
        assert(l2.to_multiset().len() == 0);
        assert(l2.len() == 0);
    } else {
        let x = l1.last();
        assert(l1.contains(x));
        assert(l1.to_multiset().count(x) > 0);
        assert(l2.to_multiset().count(x) > 0);
        assert(l2.contains(x));
        let i = choose|i: int| 0 <= i < l2.len() && l2[i] == x;
        assert(l1.drop_last() =~= l1.remove(l1.len() - 1));
        assert(l1.remove(l1.len() - 1).to_multiset() =~= l1.to_multiset().remove(x));
        assert(l2.remove(i).to_multiset() =~= l2.to_multiset().remove(x));
        lemma_corpus_order_independent(l1.drop_last(), l2.remove(i), a, b);
        lemma_corpus_count_remove(l2, i, a, b);
        assert(corpus_count(l1, a, b) == corpus_count(l1.drop_last(), a, b) + pair_count(
            line_pairs(x),
            a,
            b,
        ));
    }
}

/// Empty-line elision: a line with no surviving words records no transition
/// at all — in particular none from the start sentinel to the end sentinel.
pub proof fn lemma_empty_line_elision(ws: Seq<Seq<char>>, a: Tok, b: Tok)
    requires
        ws.len() == 0,
    ensures
        pair_count(line_pairs(ws), a, b) == 0,
{
    assert(line_pairs(ws) =~= Seq::<(Tok, Tok)>::empty());
}

/// Unknown-seed fallback: a seed word the registry never saw resolves to the
/// very node that no seed at all resolves to, so generation from an unknown
/// seed walks the same chain from the same start as seedless generation.
pub proof fn lemma_unknown_seed_fallback(c: MarkovAllNodes, w: Seq<char>)
    requires
        !c.registry().contains_key(w),
    ensures
        c.start_of(Some(w)) == c.start_of(None),
{
}

} // verus!
