//! What holds of the finder and the enumeration together.
use vstd::prelude::*;

use crate::model::{
    all_in_domain, index_triples, is_index_triple, is_zero_triple, lemma_index_triple_is_zero_triple,
    lemma_zero_triple_is_index_triple, triples_of, zero_triples,
};

verus! {

/// The two descriptions of the zero-sum triples of a sequence agree.
pub proof fn zero_triples_by_index(s: Seq<i64>)
    ensures
        zero_triples(s) == index_triples(s),
{
    assert forall|t: (int, int, int)| is_zero_triple(s, t) <==> is_index_triple(s, t) by {
        if is_zero_triple(s, t) {
            lemma_zero_triple_is_index_triple(s, t);
        }
        if is_index_triple(s, t) {
            lemma_index_triple_is_zero_triple(s, t);
        }
    }
    assert(zero_triples(s) =~= index_triples(s));
}

/// A sequence of fewer than three elements has no zero-sum triple.
pub proof fn short_input_has_no_triples(s: Seq<i64>)
    requires
        s.len() < 3,
    ensures
        zero_triples(s) == Set::<(int, int, int)>::empty(),
        index_triples(s) == Set::<(int, int, int)>::empty(),
{
    zero_triples_by_index(s);
    assert(index_triples(s) =~= Set::<(int, int, int)>::empty());
}

/// For every input in the domain, `three_sum` and `naive_three_sum` return
/// the same set of triples.
pub proof fn three_sum_agrees_with_naive(s: Seq<i64>, found: Seq<[i64; 3]>, listed: Seq<[i64; 3]>)
    requires
        all_in_domain(s),
        triples_of(found) == zero_triples(s),
        triples_of(listed) == index_triples(s),
    ensures
        triples_of(found) == triples_of(listed),
{
    zero_triples_by_index(s);
}

/// Two calls of `three_sum` on the same input return the same set of
/// triples.
pub proof fn three_sum_is_repeatable(s: Seq<i64>, first: Seq<[i64; 3]>, second: Seq<[i64; 3]>)
    requires
        all_in_domain(s),
        triples_of(first) == zero_triples(s),
        triples_of(second) == zero_triples(s),
    ensures
        triples_of(first) == triples_of(second),
{
}

} // verus!
