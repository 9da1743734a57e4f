//! The brute-force enumeration of every position triple, kept as an
//! independent reference for the finder.
use vstd::prelude::*;

use crate::laws::short_input_has_no_triples;
use crate::model::{
    as_tuple, index_triples, is_index_triple, sort3, triples_of,
};

verus! {

/// Positions `i < j < k` of `s` whose values sum to zero.
pub open spec fn hit(s: Seq<i64>, i: int, j: int, k: int) -> bool {
    0 <= i < j < k < s.len() && s[i] + s[j] + s[k] == 0
}

/// `(i, j, k)` comes before `(a, b, c)` in lexicographic order.
pub open spec fn lex_before(i: int, j: int, k: int, a: int, b: int, c: int) -> bool {
    i < a || (i == a && (j < b || (j == b && k < c)))
}

/// The sorted triples of the hits before `(a, b, c)`.
pub open spec fn hits_before(s: Seq<i64>, a: int, b: int, c: int) -> Set<(int, int, int)> {
    Set::new(
        |t: (int, int, int)|
            exists|i: int, j: int, k: int|
                #[trigger] hit(s, i, j, k) && lex_before(i, j, k, a, b, c) && sort3(
                    s[i] as int,
                    s[j] as int,
                    s[k] as int,
                ) == t,
    )
}

/// Moving the cursor past no hit leaves the set of hits before it alone.
proof fn lemma_hits_move(s: Seq<i64>, a: int, b: int, c: int, a2: int, b2: int, c2: int)
    requires
        forall|i: int, j: int, k: int|
            #[trigger] hit(s, i, j, k) ==> (lex_before(i, j, k, a, b, c) <==> lex_before(
                i,
                j,
                k,
                a2,
                b2,
                c2,
            )),
    ensures
        hits_before(s, a, b, c) == hits_before(s, a2, b2, c2),
{
    assert(hits_before(s, a, b, c) =~= hits_before(s, a2, b2, c2));
}

/// Moving the cursor one step adds the hit at the cursor, if there is one.
proof fn lemma_hits_step(s: Seq<i64>, a: int, b: int, c: int)
    requires
        0 <= a < b < c < s.len(),
    ensures
        hits_before(s, a, b, c + 1) == if hit(s, a, b, c) {
            hits_before(s, a, b, c).insert(sort3(s[a] as int, s[b] as int, s[c] as int))
        } else {
            hits_before(s, a, b, c)
        },
{
    let t0 = sort3(s[a] as int, s[b] as int, s[c] as int);
    if hit(s, a, b, c) {
        assert(hits_before(s, a, b, c + 1).contains(t0));
        assert(hits_before(s, a, b, c + 1) =~= hits_before(s, a, b, c).insert(t0));
    } else {
        assert(hits_before(s, a, b, c + 1) =~= hits_before(s, a, b, c));
    }
}

/// Appending a triple adds it to the set a sequence holds.
proof fn lemma_triples_push(r: Seq<[i64; 3]>, x: [i64; 3])
    ensures
        triples_of(r.push(x)) == triples_of(r).insert(as_tuple(x)),
{
    let r2 = r.push(x);
    assert forall|t: (int, int, int)| #[trigger] triples_of(r2).contains(t) <==> triples_of(r).insert(as_tuple(x)).contains(t) by {
        if triples_of(r).contains(t) {
            let p = choose|p: int| 0 <= p < r.len() && #[trigger] as_tuple(r[p]) == t;
            assert(r2[p] == r[p]);
        }
        if triples_of(r2).contains(t) && t != as_tuple(x) {
            let p = choose|p: int| 0 <= p < r2.len() && #[trigger] as_tuple(r2[p]) == t;
            assert(r2[p] == r[p]);
        }
        if t == as_tuple(x) {
            assert(r2[r.len() as int] == x);
        }
    }
    assert(triples_of(r2) =~= triples_of(r).insert(as_tuple(x)));
}

/// The sorted triples of the hits `(i, j, k2)` with `j < k2 < k`, in order
/// of `k2`.
pub open spec fn enumeration_row(s: Seq<i64>, i: int, j: int, k: int) -> Seq<(int, int, int)>
    decreases k - j,
{
    if k <= j + 1 {
        Seq::empty()
    } else {
        let k2 = k - 1;
        enumeration_row(s, i, j, k2) + if hit(s, i, j, k2) {
            seq![sort3(s[i] as int, s[j] as int, s[k2] as int)]
        } else {
            Seq::empty()
        }
    }
}

/// The sorted triples of the hits `(i, j2, k)` with `i < j2 < j`, in
/// lexicographic order.
pub open spec fn enumeration_plane(s: Seq<i64>, i: int, j: int) -> Seq<(int, int, int)>
    decreases j - i,
{
    if j <= i + 1 {
        Seq::empty()
    } else {
        enumeration_plane(s, i, j - 1) + enumeration_row(s, i, j - 1, s.len() as int)
    }
}

/// The sorted triples of the hits whose first position is below `i`, in
/// lexicographic order.
pub open spec fn enumeration_prefix(s: Seq<i64>, i: int) -> Seq<(int, int, int)>
    decreases i,
{
    if i <= 0 {
        Seq::empty()
    } else {
        enumeration_prefix(s, i - 1) + enumeration_plane(s, i - 1, s.len() as int)
    }
}

/// One sorted triple for each hit of `s`, in lexicographic order of its
/// positions; equal triples from different positions all stay.
pub open spec fn enumeration(s: Seq<i64>) -> Seq<(int, int, int)> {
    enumeration_prefix(s, s.len() as int)
}

/// The triples of `r`, one by one, as tuples of integers.
pub open spec fn tuples_of(r: Seq<[i64; 3]>) -> Seq<(int, int, int)> {
    r.map_values(|t: [i64; 3]| as_tuple(t))
}

/// `x`, `y` and `z` in ascending order.
fn sort_triple(x: i64, y: i64, z: i64) -> (r: [i64; 3])
    ensures
        as_tuple(r) == sort3(x as int, y as int, z as int),
{
    if x <= y {
        if y <= z {
            [x, y, z]
        } else if x <= z {
            [x, z, y]
        } else {
            [z, x, y]
        }
    } else {
        if x <= z {
            [y, x, z]
        } else if y <= z {
            [y, z, x]
        } else {
            [z, y, x]
        }
    }
}

/// For every positions `i < j < k` whose values sum to zero, in
/// lexicographic order, the sorted triple of their values. Inputs of fewer
/// than three elements give an empty result.
pub fn naive_three_sum(source: &[i64]) -> (result: Vec<[i64; 3]>)
    ensures
        tuples_of(result@) == enumeration(source@),
        triples_of(result@) == index_triples(source@),
        source@.len() < 3 ==> result@.len() == 0,
{
    let ghost s = source@;
    let n = source.len();
    let mut result: Vec<[i64; 3]> = Vec::new();
    let mut i: usize = 0;
    proof {
        assert(tuples_of(result@) =~= enumeration_prefix(s, 0));
    }
    while i < n
        invariant
            s == source@,
            n == s.len(),
            i <= n,
            triples_of(result@) == hits_before(s, i as int, 0, 0),
            tuples_of(result@) == enumeration_prefix(s, i as int),
        decreases n - i,
    {
        let mut j: usize = i + 1;
        proof {
            lemma_hits_move(s, i as int, 0, 0, i as int, j as int, 0);
            assert(tuples_of(result@) =~= enumeration_prefix(s, i as int) + enumeration_plane(
                s,
                i as int,
                j as int,
            ));
        }
        while j < n
            invariant
                s == source@,
                n == s.len(),
                i < n,
                i < j <= n,
                triples_of(result@) == hits_before(s, i as int, j as int, 0),
                tuples_of(result@) == enumeration_prefix(s, i as int) + enumeration_plane(
                    s,
                    i as int,
                    j as int,
                ),
            decreases n - j,
        {
            let mut k: usize = j + 1;
            proof {
                lemma_hits_move(s, i as int, j as int, 0, i as int, j as int, k as int);
                assert(tuples_of(result@) =~= enumeration_prefix(s, i as int) + enumeration_plane(
                    s,
                    i as int,
                    j as int,
                ) + enumeration_row(s, i as int, j as int, k as int));
            }
            while k < n
                invariant
                    s == source@,
                    n == s.len(),
                    i < j < n,
                    j < k <= n,
                    triples_of(result@) == hits_before(s, i as int, j as int, k as int),
                    tuples_of(result@) == enumeration_prefix(s, i as int) + enumeration_plane(
                        s,
                        i as int,
                        j as int,
                    ) + enumeration_row(s, i as int, j as int, k as int),
                decreases n - k,
            {
                let ghost before = result@;
                let sum = source[i] as i128 + source[j] as i128 + source[k] as i128;
                if sum == 0 {
                    let solution = sort_triple(source[i], source[j], source[k]);
                    result.push(solution);
                }
                proof {
                    lemma_hits_step(s, i as int, j as int, k as int);
                    if sum == 0 {
                        lemma_triples_push(before, result@.last());
                        assert(result@ == before.push(result@.last()));
                        assert(tuples_of(result@) =~= tuples_of(before).push(as_tuple(result@.last())));
                    }
                    assert(tuples_of(result@) =~= enumeration_prefix(s, i as int) + enumeration_plane(
                        s,
                        i as int,
                        j as int,
                    ) + enumeration_row(s, i as int, j as int, k + 1));
                }
                k += 1;
            }
            proof {
                lemma_hits_move(s, i as int, j as int, k as int, i as int, j + 1, j + 2);
                assert(tuples_of(result@) =~= enumeration_prefix(s, i as int) + enumeration_plane(
                    s,
                    i as int,
                    j + 1,
                ));
            }
            j += 1;
        }
        proof {
            lemma_hits_move(s, i as int, j as int, 0, i + 1, 0, 0);
            assert(tuples_of(result@) =~= enumeration_prefix(s, i + 1));
        }
        i += 1;
    }
    proof {
        assert forall|t: (int, int, int)| is_index_triple(s, t) implies #[trigger] hits_before(s, i as int, 0, 0).contains(t) by {
            let (a, b, c) = choose|a: int, b: int, c: int|
                0 <= a < b < c < s.len() && s[a] + s[b] + s[c] == 0 && #[trigger] sort3(
                    s[a] as int,
                    s[b] as int,
                    s[c] as int,
                ) == t;
            assert(hit(s, a, b, c));
        }
        assert(hits_before(s, i as int, 0, 0) =~= index_triples(s));
        if s.len() < 3 && result@.len() > 0 {
            short_input_has_no_triples(s);
            assert(index_triples(s).contains(as_tuple(result@[0])));
        }
    }
    result
}

} // verus!
