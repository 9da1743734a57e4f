//! The zero-sum triple finder: a counting pass over the bounded domain, a
//! compaction into the sorted distinct values, and a two-pointer scan that
//! uses the count table as a membership test.
use vstd::prelude::*;

use crate::laws::short_input_has_no_triples;
use crate::model::{
    all_in_domain, as_tuple, count_of, in_domain, is_zero_triple, lemma_count_le_len,
    lemma_present_in_domain, no_repeats, triples_of, zero_triples, MAX_NUMBER, MIN_NUMBER,
    NUMBER_RANGE,
};

verus! {

/// `table` holds, at slot `k`, the count of `k + MIN_NUMBER` in `s`.
pub open spec fn counts_table(table: Seq<usize>, s: Seq<i64>) -> bool {
    &&& table.len() == NUMBER_RANGE
    &&& forall|k: int| 0 <= k < NUMBER_RANGE ==> #[trigger] table[k] == count_of(s, k + MIN_NUMBER)
}

/// `unique` lists, strictly ascending, each value with a nonzero slot in
/// `table`, together with that slot's count.
pub open spec fn lists_present(unique: Seq<(i64, usize)>, table: Seq<usize>) -> bool {
    &&& forall|m: int|
        0 <= m < unique.len() ==> {
            &&& in_domain(#[trigger] unique[m].0 as int)
            &&& unique[m].1 > 0
            &&& table[unique[m].0 - MIN_NUMBER] == unique[m].1
        }
    &&& forall|m: int, n: int| 0 <= m < n < unique.len() ==> unique[m].0 < unique[n].0
    &&& forall|k: int|
        0 <= k < NUMBER_RANGE && #[trigger] table[k] > 0 ==> exists|m: int|
            0 <= m < unique.len() && #[trigger] unique[m].0 == k + MIN_NUMBER
}

/// The value at position `m` of `unique`, or `MAX_NUMBER` past its end.
pub open spec fn key_at(unique: Seq<(i64, usize)>, m: int) -> int {
    if 0 <= m < unique.len() {
        unique[m].0 as int
    } else {
        MAX_NUMBER as int
    }
}

/// Counts each value of `source` into a table indexed by `value - MIN_NUMBER`.
fn count_values(source: &[i64]) -> (table: Vec<usize>)
    requires
        all_in_domain(source@),
    ensures
        counts_table(table@, source@),
{
    let mut table: Vec<usize> = vec![0usize; NUMBER_RANGE];
    let mut i: usize = 0;
    while i < source.len()
        invariant
            i <= source@.len(),
            all_in_domain(source@),
            counts_table(table@, source@.take(i as int)),
        decreases source@.len() - i,
    {
        let n = source[i];
        proof {
            assert(in_domain(source@[i as int] as int));
            assert(source@.take(i + 1).drop_last() =~= source@.take(i as int));
            lemma_count_le_len(source@.take(i as int), n as int);
        }
        let idx = (n - MIN_NUMBER) as usize;
        table[idx] = table[idx] + 1;
        i += 1;
        proof {
            assert forall|k: int| 0 <= k < NUMBER_RANGE implies #[trigger] table@[k] == count_of(
                source@.take(i as int),
                k + MIN_NUMBER,
            ) by {
                assert(source@.take(i as int).drop_last() =~= source@.take(i - 1));
            }
        }
    }
    proof {
        assert(source@.take(i as int) =~= source@);
    }
    table
}

/// Lists the values with a nonzero count, ascending, with their counts.
fn unique_values(table: &Vec<usize>) -> (unique: Vec<(i64, usize)>)
    requires
        table@.len() == NUMBER_RANGE,
    ensures
        lists_present(unique@, table@),
{
    let mut unique: Vec<(i64, usize)> = Vec::new();
    let mut i: usize = 0;
    while i < NUMBER_RANGE
        invariant
            i <= NUMBER_RANGE,
            table@.len() == NUMBER_RANGE,
            forall|m: int|
                0 <= m < unique@.len() ==> {
                    &&& in_domain(#[trigger] unique@[m].0 as int)
                    &&& unique@[m].0 < i + MIN_NUMBER
                    &&& unique@[m].1 > 0
                    &&& table@[unique@[m].0 - MIN_NUMBER] == unique@[m].1
                },
            forall|m: int, n: int| 0 <= m < n < unique@.len() ==> unique@[m].0 < unique@[n].0,
            forall|k: int|
                0 <= k < i && #[trigger] table@[k] > 0 ==> exists|m: int|
                    0 <= m < unique@.len() && #[trigger] unique@[m].0 == k + MIN_NUMBER,
        decreases NUMBER_RANGE - i,
    {
        let n = i as i64 + MIN_NUMBER;
        let count = table[i];
        let ghost before = unique@;
        if count > 0 {
            unique.push((n, count));
        }
        proof {
            assert forall|k: int|
                0 <= k < i + 1 && #[trigger] table@[k] > 0 implies exists|m: int|
                    0 <= m < unique@.len() && #[trigger] unique@[m].0 == k + MIN_NUMBER by {
                if k == i {
                    assert(unique@[unique@.len() - 1].0 == k + MIN_NUMBER);
                } else {
                    let m = choose|m: int|
                        0 <= m < before.len() && #[trigger] before[m].0 == k + MIN_NUMBER;
                    assert(unique@[m] == before[m]);
                }
            }
        }
        i += 1;
    }
    unique
}

/// `t` is settled once the scan has handled every left position before
/// `left` and, at `left`, every right position from `right` on.
pub open spec fn settled(unique: Seq<(i64, usize)>, left: int, right: int, t: (int, int, int)) -> bool {
    t.0 < key_at(unique, left) || (t.0 == key_at(unique, left) && t.2 >= key_at(unique, right))
}

/// A value of `s` stands in the list of distinct values.
proof fn lemma_listed(s: Seq<i64>, table: Seq<usize>, unique: Seq<(i64, usize)>, v: int) -> (m: int)
    requires
        all_in_domain(s),
        counts_table(table, s),
        lists_present(unique, table),
        count_of(s, v) >= 1,
    ensures
        0 <= m < unique.len(),
        unique[m].0 == v,
{
    lemma_present_in_domain(s, v);
    assert(table[v - MIN_NUMBER] > 0);
    choose|m: int| 0 <= m < unique.len() && #[trigger] unique[m].0 == (v - MIN_NUMBER) + MIN_NUMBER
}

/// Runs the two-pointer scan over the distinct values, using the count
/// table to test the third value.
fn scan_pairs(table: &Vec<usize>, unique: &Vec<(i64, usize)>, Ghost(s): Ghost<Seq<i64>>) -> (result: Vec<[i64; 3]>)
    requires
        all_in_domain(s),
        counts_table(table@, s),
        lists_present(unique@, table@),
    ensures
        forall|i: int| 0 <= i < result@.len() ==> is_zero_triple(s, #[trigger] as_tuple(result@[i])),
        forall|t: (int, int, int)| is_zero_triple(s, t) ==> exists|i: int|
            0 <= i < result@.len() && #[trigger] as_tuple(result@[i]) == t,
        no_repeats(result@),
{
    let ghost u = unique@;
    let mut result: Vec<[i64; 3]> = Vec::new();
    let mut left: usize = 0;
    proof {
        assert forall|t: (int, int, int)| is_zero_triple(s, t) implies t.0 >= key_at(u, 0) by {
            let m = lemma_listed(s, table@, u, t.0);
            assert(u[0].0 <= u[m].0);
        }
    }
    while left < unique.len()
        invariant
            left <= u.len(),
            u == unique@,
            all_in_domain(s),
            counts_table(table@, s),
            lists_present(u, table@),
            forall|i: int|
                0 <= i < result@.len() ==> is_zero_triple(s, #[trigger] as_tuple(result@[i]))
                    && as_tuple(result@[i]).0 < key_at(u, left as int),
            forall|t: (int, int, int)|
                is_zero_triple(s, t) && t.0 < key_at(u, left as int) ==> exists|i: int|
                    0 <= i < result@.len() && #[trigger] as_tuple(result@[i]) == t,
            no_repeats(result@),
        decreases u.len() - left,
    {
        let left_num = unique[left].0;
        let left_num_count = unique[left].1;
        let mut right: usize = unique.len();
        proof {
            assert forall|t: (int, int, int)| is_zero_triple(s, t) implies t.2 < MAX_NUMBER by {
                lemma_present_in_domain(s, t.2);
            }
        }
        while right > left
            invariant
                left < u.len(),
                left <= right <= u.len(),
                u == unique@,
                all_in_domain(s),
                counts_table(table@, s),
                lists_present(u, table@),
                left_num == u[left as int].0,
                left_num_count == u[left as int].1,
                forall|i: int|
                    0 <= i < result@.len() ==> is_zero_triple(s, #[trigger] as_tuple(result@[i]))
                        && settled(u, left as int, right as int, as_tuple(result@[i])),
                forall|t: (int, int, int)|
                    is_zero_triple(s, t) && settled(u, left as int, right as int, t) ==> exists|i: int|
                        0 <= i < result@.len() && #[trigger] as_tuple(result@[i]) == t,
                no_repeats(result@),
            ensures
                forall|i: int|
                    0 <= i < result@.len() ==> is_zero_triple(s, #[trigger] as_tuple(result@[i]))
                        && as_tuple(result@[i]).0 <= left_num,
                forall|t: (int, int, int)|
                    is_zero_triple(s, t) && t.0 <= left_num ==> exists|i: int|
                        0 <= i < result@.len() && #[trigger] as_tuple(result@[i]) == t,
                no_repeats(result@),
            decreases right,
        {
            right -= 1;
            let right_num = unique[right].0;
            let right_num_count = unique[right].1;
            let ghost before = result@;
            // the third value lies between the left and right values, or nowhere
            let third_num = 0 - left_num - right_num;
            if third_num > right_num {
                // smaller right values only raise the third value further
                proof {
                    assert forall|t: (int, int, int)|
                        is_zero_triple(s, t) && t.0 <= left_num implies exists|i: int|
                            0 <= i < result@.len() && #[trigger] as_tuple(result@[i]) == t by {
                        if t.0 == left_num && t.2 < key_at(u, right + 1) {
                            let m = lemma_listed(s, table@, u, t.2);
                            assert(m == right);
                        }
                    }
                }
                break;
            }
            if third_num < left_num {
            } else if third_num == left_num {
                if third_num == right_num {
                    if left_num_count >= 3 {
                        result.push([0, 0, 0]);
                    }
                } else if left_num_count >= 2 {
                    result.push([left_num, left_num, right_num]);
                }
            } else if third_num == right_num {
                if right_num_count >= 2 {
                    result.push([left_num, right_num, right_num]);
                }
            } else {
                // the count table doubles as a membership test
                let third_index = (third_num - MIN_NUMBER) as usize;
                if table[third_index] > 0 {
                    result.push([left_num, third_num, right_num]);
                }
            }
            proof {
                let cand = (left_num as int, third_num as int, right_num as int);
                assert(result@.len() == before.len() ==> result@ == before);
                assert(result@.len() == before.len() + 1 ==> result@ == before.push(result@.last()) && as_tuple(result@.last()) == cand);
                assert(result@.len() == before.len() + 1 <==> is_zero_triple(s, cand));
                assert forall|t: (int, int, int)|
                    is_zero_triple(s, t) && settled(u, left as int, right as int, t) implies exists|i: int|
                        0 <= i < result@.len() && #[trigger] as_tuple(result@[i]) == t by {
                    if settled(u, left as int, right + 1, t) {
                        let i = choose|i: int| 0 <= i < before.len() && #[trigger] as_tuple(before[i]) == t;
                        assert(as_tuple(result@[i]) == t);
                    } else {
                        let m = lemma_listed(s, table@, u, t.2);
                        assert(m == right);
                        assert(t == cand);
                        assert(as_tuple(result@[before.len() as int]) == t);
                    }
                }
            }
        }
        proof {
            assert forall|t: (int, int, int)|
                is_zero_triple(s, t) && t.0 < key_at(u, left + 1) implies t.0 <= left_num by {
                let m = lemma_listed(s, table@, u, t.0);
            }
        }
        left += 1;
    }
    proof {
        assert forall|t: (int, int, int)| is_zero_triple(s, t) implies t.0 < key_at(u, left as int) by {
            lemma_present_in_domain(s, t.0);
        }
    }
    result
}

/// Why the finder refused its input.
#[derive(Debug, Clone, Copy, PartialEq, Eq)]
pub enum ThreeSumError {
    /// The element at `index`, `value`, lies outside `[MIN_NUMBER, MAX_NUMBER)`.
    OutOfRangeValue { index: usize, value: i64 },
}

/// Every distinct ascending triple `[a, b, c]` with `a + b + c == 0` whose
/// values `source` holds, each as often as the triple uses it. Each triple
/// comes once; their order is unspecified.
pub fn three_sum(source: &[i64]) -> (result: Vec<[i64; 3]>)
    requires
        all_in_domain(source@),
    ensures
        triples_of(result@) == zero_triples(source@),
        no_repeats(result@),
        forall|i: int|
            0 <= i < result@.len() ==> {
                let (a, b, c) = #[trigger] as_tuple(result@[i]);
                a <= b <= c && a + b + c == 0
            },
        source@.len() < 3 ==> result@.len() == 0,
{
    // counting sort, since the range of values is known
    let table = count_values(source);
    let unique = unique_values(&table);
    let result = scan_pairs(&table, &unique, Ghost(source@));
    proof {
        assert(triples_of(result@) =~= zero_triples(source@));
        if source@.len() < 3 && result@.len() > 0 {
            short_input_has_no_triples(source@);
            assert(zero_triples(source@).contains(as_tuple(result@[0])));
        }
    }
    result
}

/// `three_sum` on any input: refuses the first value outside
/// `[MIN_NUMBER, MAX_NUMBER)`, and otherwise returns what `three_sum` does.
pub fn try_three_sum(source: &[i64]) -> (result: Result<Vec<[i64; 3]>, ThreeSumError>)
    ensures
        result is Ok <==> all_in_domain(source@),
        result matches Ok(r) ==> triples_of(r@) == zero_triples(source@) && no_repeats(r@),
        result matches Err(ThreeSumError::OutOfRangeValue { index, value }) ==> {
            &&& index < source@.len()
            &&& value == source@[index as int]
            &&& !in_domain(value as int)
            &&& forall|j: int| 0 <= j < index ==> #[trigger] in_domain(source@[j] as int)
        },
{
    let mut i: usize = 0;
    while i < source.len()
        invariant
            i <= source@.len(),
            forall|j: int| 0 <= j < i ==> #[trigger] in_domain(source@[j] as int),
        decreases source@.len() - i,
    {
        let value = source[i];
        if value < MIN_NUMBER || value >= MAX_NUMBER {
            proof {
                assert(!in_domain(source@[i as int] as int));
            }
            return Err(ThreeSumError::OutOfRangeValue { index: i, value });
        }
        i += 1;
    }
    Ok(three_sum(source))
}

} // verus!
