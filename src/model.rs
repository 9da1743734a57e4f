//! The mathematical model: occurrence counts, sorted triples, and the two
//! descriptions of the zero-sum triples of a sequence.
use vstd::prelude::*;

verus! {

/// Smallest value the finder accepts.
pub const MIN_NUMBER: i64 = -3000;

/// One past the largest value the finder accepts.
pub const MAX_NUMBER: i64 = 3000;

/// Number of values in `[MIN_NUMBER, MAX_NUMBER)`.
pub const NUMBER_RANGE: usize = 6000;

/// Whether `v` lies in `[MIN_NUMBER, MAX_NUMBER)`.
pub open spec fn in_domain(v: int) -> bool {
    MIN_NUMBER <= v < MAX_NUMBER
}

/// Whether every element of `s` lies in the supported domain.
pub open spec fn all_in_domain(s: Seq<i64>) -> bool {
    forall|i: int| 0 <= i < s.len() ==> #[trigger] in_domain(s[i] as int)
}

/// How many times `v` occurs in `s`.
pub open spec fn count_of(s: Seq<i64>, v: int) -> nat
    decreases s.len(),
{
    if s.len() == 0 {
        0
    } else {
        count_of(s.drop_last(), v) + if s.last() == v { 1nat } else { 0nat }
    }
}

/// The triple `[x, y, z]` read as a tuple of mathematical integers.
pub open spec fn as_tuple(t: [i64; 3]) -> (int, int, int) {
    (t@[0] as int, t@[1] as int, t@[2] as int)
}

/// `x`, `y` and `z` in ascending order.
pub open spec fn sort3(x: int, y: int, z: int) -> (int, int, int) {
    if x <= y {
        if y <= z {
            (x, y, z)
        } else if x <= z {
            (x, z, y)
        } else {
            (z, x, y)
        }
    } else {
        if x <= z {
            (y, x, z)
        } else if y <= z {
            (y, z, x)
        } else {
            (z, y, x)
        }
    }
}

/// `t = (a, b, c)` is ascending, sums to zero, and `s` holds each of its
/// values at least as often as `t` does.
pub open spec fn is_zero_triple(s: Seq<i64>, t: (int, int, int)) -> bool {
    let (a, b, c) = t;
    &&& a <= b <= c
    &&& a + b + c == 0
    &&& if a == c {
        count_of(s, a) >= 3
    } else if a == b {
        count_of(s, a) >= 2 && count_of(s, c) >= 1
    } else if b == c {
        count_of(s, a) >= 1 && count_of(s, c) >= 2
    } else {
        count_of(s, a) >= 1 && count_of(s, b) >= 1 && count_of(s, c) >= 1
    }
}

/// The zero-sum triples of `s`, described by the values and their counts.
pub open spec fn zero_triples(s: Seq<i64>) -> Set<(int, int, int)> {
    Set::new(|t: (int, int, int)| is_zero_triple(s, t))
}

/// `t` is the sorted form of `s[i], s[j], s[k]` for some positions
/// `i < j < k` whose values sum to zero.
pub open spec fn is_index_triple(s: Seq<i64>, t: (int, int, int)) -> bool {
    exists|i: int, j: int, k: int|
        0 <= i < j < k < s.len() && s[i] + s[j] + s[k] == 0 && #[trigger] sort3(
            s[i] as int,
            s[j] as int,
            s[k] as int,
        ) == t
}

/// The zero-sum triples of `s`, described by positions.
pub open spec fn index_triples(s: Seq<i64>) -> Set<(int, int, int)> {
    Set::new(|t: (int, int, int)| is_index_triple(s, t))
}

/// The set of triples that the sequence `r` holds.
pub open spec fn triples_of(r: Seq<[i64; 3]>) -> Set<(int, int, int)> {
    Set::new(|t: (int, int, int)| exists|i: int| 0 <= i < r.len() && #[trigger] as_tuple(r[i]) == t)
}

/// No triple occurs twice in `r`.
pub open spec fn no_repeats(r: Seq<[i64; 3]>) -> bool {
    forall|i: int, j: int|
        0 <= i < j < r.len() ==> as_tuple(#[trigger] r[i]) != as_tuple(#[trigger] r[j])
}

/// The count of `v` in `s` splits at any position.
pub proof fn lemma_count_append(a: Seq<i64>, b: Seq<i64>, v: int)
    ensures
        count_of(a + b, v) == count_of(a, v) + count_of(b, v),
    decreases b.len(),
{
    if b.len() == 0 {
        assert(a + b =~= a);
    } else {
        assert((a + b).drop_last() =~= a + b.drop_last());
        lemma_count_append(a, b.drop_last(), v);
    }
}

/// The count of `v` is at least its count in a prefix plus one for a
/// matching element right after that prefix.
pub proof fn lemma_count_prefix(s: Seq<i64>, v: int, k: int)
    requires
        0 <= k < s.len(),
    ensures
        count_of(s, v) >= count_of(s.take(k), v) + if s[k] == v { 1nat } else { 0nat },
{
    let rest = s.skip(k + 1);
    assert(s =~= s.take(k + 1) + rest);
    lemma_count_append(s.take(k + 1), rest, v);
    assert(s.take(k + 1).drop_last() =~= s.take(k));
}

/// Three positions `i < j < k` of `s` show that many occurrences of `w`.
pub proof fn lemma_count_at_positions(s: Seq<i64>, w: int, i: int, j: int, k: int)
    requires
        0 <= i < j < k < s.len(),
    ensures
        count_of(s, w) >= (if s[i] == w { 1nat } else { 0nat }) + (if s[j] == w { 1nat } else { 0nat }) + (if s[k] == w { 1nat } else { 0nat }),
{
    let sk = s.take(k);
    let sj = sk.take(j);
    lemma_count_prefix(s, w, k);
    lemma_count_prefix(sk, w, j);
    lemma_count_prefix(sj, w, i);
}

/// A value that occurs has a last occurrence, before which it occurs one
/// time fewer.
pub proof fn lemma_last_occurrence(s: Seq<i64>, v: int) -> (i: int)
    requires
        count_of(s, v) >= 1,
    ensures
        0 <= i < s.len(),
        s[i] == v,
        count_of(s.take(i), v) == count_of(s, v) - 1,
    decreases s.len(),
{
    if s.last() == v {
        assert(s.take(s.len() - 1) =~= s.drop_last());
        s.len() - 1
    } else {
        let p = s.drop_last();
        let i = lemma_last_occurrence(p, v);
        assert(p.take(i) =~= s.take(i));
        i
    }
}

/// A value that occurs twice has two positions holding it.
pub proof fn lemma_two_occurrences(s: Seq<i64>, v: int) -> (r: (int, int))
    requires
        count_of(s, v) >= 2,
    ensures
        0 <= r.0 < r.1 < s.len(),
        s[r.0] == v,
        s[r.1] == v,
{
    let j = lemma_last_occurrence(s, v);
    let i = lemma_last_occurrence(s.take(j), v);
    (i, j)
}

/// A value that occurs three times has three positions holding it.
pub proof fn lemma_three_occurrences(s: Seq<i64>, v: int) -> (r: (int, int, int))
    requires
        count_of(s, v) >= 3,
    ensures
        0 <= r.0 < r.1 < r.2 < s.len(),
        s[r.0] == v,
        s[r.1] == v,
        s[r.2] == v,
{
    let k = lemma_last_occurrence(s, v);
    let (i, j) = lemma_two_occurrences(s.take(k), v);
    (i, j, k)
}

/// Three distinct positions whose values sum to zero give an index triple,
/// whatever order they come in.
pub proof fn lemma_index_triple_any_order(s: Seq<i64>, p: int, q: int, r: int)
    requires
        0 <= p < s.len(),
        0 <= q < s.len(),
        0 <= r < s.len(),
        p != q && q != r && p != r,
        s[p] + s[q] + s[r] == 0,
    ensures
        is_index_triple(s, sort3(s[p] as int, s[q] as int, s[r] as int)),
{
    let t = sort3(s[p] as int, s[q] as int, s[r] as int);
    if p < q && q < r {
        assert(sort3(s[p] as int, s[q] as int, s[r] as int) == t);
    } else if p < r && r < q {
        assert(sort3(s[p] as int, s[r] as int, s[q] as int) == t);
    } else if q < p && p < r {
        assert(sort3(s[q] as int, s[p] as int, s[r] as int) == t);
    } else if q < r && r < p {
        assert(sort3(s[q] as int, s[r] as int, s[p] as int) == t);
    } else if r < p && p < q {
        assert(sort3(s[r] as int, s[p] as int, s[q] as int) == t);
    } else {
        assert(sort3(s[r] as int, s[q] as int, s[p] as int) == t);
    }
}

/// Every triple described by positions is one described by counts.
pub proof fn lemma_index_triple_is_zero_triple(s: Seq<i64>, t: (int, int, int))
    requires
        is_index_triple(s, t),
    ensures
        is_zero_triple(s, t),
{
    let (i, j, k) = choose|i: int, j: int, k: int|
        0 <= i < j < k < s.len() && s[i] + s[j] + s[k] == 0 && #[trigger] sort3(
            s[i] as int,
            s[j] as int,
            s[k] as int,
        ) == t;
    lemma_count_at_positions(s, t.0, i, j, k);
    lemma_count_at_positions(s, t.1, i, j, k);
    lemma_count_at_positions(s, t.2, i, j, k);
}

/// Every triple described by counts is one described by positions.
pub proof fn lemma_zero_triple_is_index_triple(s: Seq<i64>, t: (int, int, int))
    requires
        is_zero_triple(s, t),
    ensures
        is_index_triple(s, t),
{
    let (a, b, c) = t;
    if a == c {
        let (i, j, k) = lemma_three_occurrences(s, a);
        lemma_index_triple_any_order(s, i, j, k);
    } else if a == b {
        let (i, j) = lemma_two_occurrences(s, a);
        let k = lemma_last_occurrence(s, c);
        lemma_index_triple_any_order(s, i, j, k);
    } else if b == c {
        let i = lemma_last_occurrence(s, a);
        let (j, k) = lemma_two_occurrences(s, c);
        lemma_index_triple_any_order(s, i, j, k);
    } else {
        let i = lemma_last_occurrence(s, a);
        let j = lemma_last_occurrence(s, b);
        let k = lemma_last_occurrence(s, c);
        lemma_index_triple_any_order(s, i, j, k);
    }
}

/// A count never exceeds the length of the sequence.
pub proof fn lemma_count_le_len(s: Seq<i64>, v: int)
    ensures
        count_of(s, v) <= s.len(),
    decreases s.len(),
{
    if s.len() > 0 {
        lemma_count_le_len(s.drop_last(), v);
    }
}

/// A value that occurs in a sequence of in-domain values is in the domain.
pub proof fn lemma_present_in_domain(s: Seq<i64>, v: int)
    requires
        all_in_domain(s),
        count_of(s, v) >= 1,
    ensures
        in_domain(v),
{
    let i = lemma_last_occurrence(s, v);
    assert(in_domain(s[i] as int));
}

} // verus!
