//! Two lists of location ids, side by side: how far they are apart, and how
//! similar they are.

use crate::text::{
    chars_of, cut_once, lines, lines_of, parse_signed, parse_unsigned, rows, signed_of,
    split_once, unsigned_of,
};
use vstd::prelude::*;

verus! {

/// The order of the integers.
pub open spec fn at_most() -> spec_fn(i32, i32) -> bool {
    |a: i32, b: i32| a <= b
}

/// `list` in rising order.
pub open spec fn sorted(list: Seq<i32>) -> Seq<i32> {
    list.sort_by(at_most())
}

/// The sum of the distances between the first `n` entries of `left` and the
/// entries of `right` at the same places.
pub open spec fn pairs_distance(left: Seq<i32>, right: Seq<i32>, n: int) -> int
    decreases n,
{
    if n <= 0 {
        0
    } else {
        pairs_distance(left, right, n - 1) + if left[n - 1] >= right[n - 1] {
            left[n - 1] - right[n - 1]
        } else {
            right[n - 1] - left[n - 1]
        }
    }
}

/// The total distance of the two lists: the smallest of one is paired with
/// the smallest of the other, and so on; the distances of the pairs are
/// added up.
pub open spec fn total_distance_of(left: Seq<i32>, right: Seq<i32>) -> int {
    pairs_distance(
        sorted(left),
        sorted(right),
        if left.len() <= right.len() {
            left.len() as int
        } else {
            right.len() as int
        },
    )
}

/// How often `value` occurs among the first `n` entries of `list`.
pub open spec fn occurrences(list: Seq<u32>, value: u32, n: int) -> int
    decreases n,
{
    if n <= 0 {
        0
    } else {
        occurrences(list, value, n - 1) + if list[n - 1] == value {
            1int
        } else {
            0int
        }
    }
}

/// The similarity score of the first `n` entries of `left`: each times the
/// number of its occurrences in `right`.
pub open spec fn similarity_of(left: Seq<u32>, right: Seq<u32>, n: int) -> int
    decreases n,
{
    if n <= 0 {
        0
    } else {
        similarity_of(left, right, n - 1) + left[n - 1] * occurrences(
            right,
            left[n - 1],
            right.len() as int,
        )
    }
}

/// Sorts a list into rising order.
///
/// Trusted: calls `sort` of the standard library's slices. The contract
/// claims what its documentation states: the outcome holds the same
/// numbers, each as often as before, in rising order.
#[verifier::external_body]
fn sort_list(list: &mut Vec<i32>)
    ensures
        final(list)@.to_multiset() == old(list)@.to_multiset(),
        forall|i: int, j: int|
            0 <= i <= j < final(list)@.len() ==> final(list)@[i] <= final(list)@[j],
{
    list.sort();
}

/// `list` in rising order.
pub fn sort(list: Vec<i32>) -> (out: Vec<i32>)
    ensures
        out@ == sorted(list@),
{
    let mut out = list;
    sort_list(&mut out);
    proof {
        assert(vstd::relations::total_ordering(at_most()));
        list@.lemma_sort_by_ensures(at_most());
        assert(vstd::relations::sorted_by(out@, at_most()));
        vstd::seq_lib::lemma_sorted_unique(out@, sorted(list@), at_most());
    }
    out
}

/// The total distance of the two lists.
pub fn total_distance(left: Vec<i32>, right: Vec<i32>) -> (sum: i128)
    ensures
        sum == total_distance_of(left@, right@),
{
    let ghost n = if left@.len() <= right@.len() {
        left@.len() as int
    } else {
        right@.len() as int
    };
    proof {
        assert(vstd::relations::total_ordering(at_most()));
        left@.lemma_sort_by_ensures(at_most());
        right@.lemma_sort_by_ensures(at_most());
        vstd::seq_lib::to_multiset_len(left@);
        vstd::seq_lib::to_multiset_len(right@);
        vstd::seq_lib::to_multiset_len(sorted(left@));
        vstd::seq_lib::to_multiset_len(sorted(right@));
    }
    let left = sort(left);
    let right = sort(right);
    let mut sum: i128 = 0;
    let mut i: usize = 0;
    while i < left.len() && i < right.len()
        invariant
            i <= left.len(),
            i <= right.len(),
            sum == pairs_distance(left@, right@, i as int),
            0 <= sum <= 0x1_0000_0000 * i,
        decreases left.len() - i,
    {
        let l = left[i] as i128;
        let r = right[i] as i128;
        sum = sum + if l >= r {
            l - r
        } else {
            r - l
        };
        i += 1;
    }
    sum
}

/// The similarity score of the first entries is at most that of all.
proof fn lemma_similarity_grows(left: Seq<u32>, right: Seq<u32>, n: int, m: int)
    requires
        0 <= n <= m,
    ensures
        0 <= similarity_of(left, right, n) <= similarity_of(left, right, m),
    decreases m,
{
    if n < m {
        lemma_similarity_grows(left, right, n, m - 1);
        lemma_occurrences_bounds(right, left[m - 1], right.len() as int);
        assert(left[m - 1] * occurrences(right, left[m - 1], right.len() as int) >= 0)
            by (nonlinear_arith)
            requires
                left[m - 1] >= 0,
                occurrences(right, left[m - 1], right.len() as int) >= 0,
        ;
    } else if n > 0 {
        lemma_similarity_grows(left, right, n - 1, m - 1);
        lemma_occurrences_bounds(right, left[m - 1], right.len() as int);
        assert(left[m - 1] * occurrences(right, left[m - 1], right.len() as int) >= 0)
            by (nonlinear_arith)
            requires
                left[m - 1] >= 0,
                occurrences(right, left[m - 1], right.len() as int) >= 0,
        ;
    }
}

/// A value occurs at least zero times and at most as often as there are
/// entries.
proof fn lemma_occurrences_bounds(list: Seq<u32>, value: u32, n: int)
    requires
        0 <= n,
    ensures
        0 <= occurrences(list, value, n) <= n,
    decreases n,
{
    if n > 0 {
        lemma_occurrences_bounds(list, value, n - 1);
    }
}

/// The similarity score of the two lists: each entry of `left` times the
/// number of its occurrences in `right`, added up. `None` where the score
/// does not fit in 128 bits.
pub fn similarity(left: &Vec<u32>, right: &Vec<u32>) -> (sum: Option<u128>)
    ensures
        match sum {
            Some(s) => s == similarity_of(left@, right@, left@.len() as int),
            None => similarity_of(left@, right@, left@.len() as int) > u128::MAX,
        },
{
    let mut sum: u128 = 0;
    let mut i: usize = 0;
    while i < left.len()
        invariant
            i <= left.len(),
            sum == similarity_of(left@, right@, i as int),
        decreases left.len() - i,
    {
        let value = left[i];
        let mut count: usize = 0;
        let mut j: usize = 0;
        while j < right.len()
            invariant
                j <= right.len(),
                count == occurrences(right@, value, j as int),
                count <= j,
            decreases right.len() - j,
        {
            if right[j] == value {
                count += 1;
            }
            j += 1;
        }
        proof {
            assert(0 <= value * count <= 0x1_0000_0000 * 0x1_0000_0000_0000_0000)
                by (nonlinear_arith)
                requires
                    0 <= value < 0x1_0000_0000,
                    0 <= count < 0x1_0000_0000_0000_0000,
            ;
            lemma_similarity_grows(left@, right@, i + 1, left@.len() as int);
        }
        sum = match sum.checked_add(value as u128 * count as u128) {
            Some(sum) => sum,
            None => {
                return None;
            },
        };
        i += 1;
    }
    Some(sum)
}

/// The two numbers of a line: what stands before the first three spaces in
/// a row, and what stands after them.
pub open spec fn pair_of(line: Seq<char>) -> Option<(i32, i32)> {
    match cut_once(line, seq![' ', ' ', ' ']) {
        None => None,
        Some((l, r)) => match (
            signed_of(l, i32::MIN as int, i32::MAX as int),
            signed_of(r, i32::MIN as int, i32::MAX as int),
        ) {
            (Some(a), Some(b)) => Some((a as i32, b as i32)),
            _ => None,
        },
    }
}

/// The two numbers of a line, where neither is negative.
pub open spec fn unsigned_pair_of(line: Seq<char>) -> Option<(u32, u32)> {
    match cut_once(line, seq![' ', ' ', ' ']) {
        None => None,
        Some((l, r)) => match (unsigned_of(l, u32::MAX as nat), unsigned_of(r, u32::MAX as nat)) {
            (Some(a), Some(b)) => Some((a as u32, b as u32)),
            _ => None,
        },
    }
}

/// The pairs of numbers of `lines`, where each line holds a pair.
pub open spec fn pairs_of(lines: Seq<Seq<char>>) -> Option<Seq<(i32, i32)>> {
    if forall|i: int| 0 <= i < lines.len() ==> pair_of(#[trigger] lines[i]) is Some {
        Some(Seq::new(lines.len(), |i: int| pair_of(lines[i])->0))
    } else {
        None
    }
}

/// The pairs of numbers without sign of `lines`, where each line holds a
/// pair.
pub open spec fn unsigned_pairs_of(lines: Seq<Seq<char>>) -> Option<Seq<(u32, u32)>> {
    if forall|i: int| 0 <= i < lines.len() ==> unsigned_pair_of(#[trigger] lines[i]) is Some {
        Some(Seq::new(lines.len(), |i: int| unsigned_pair_of(lines[i])->0))
    } else {
        None
    }
}

/// Reads two lists of numbers that stand side by side, a pair in each
/// line. `None` where a line is not made so.
pub fn parse_lists(input: &str) -> (lists: Option<(Vec<i32>, Vec<i32>)>)
    ensures
        match lists {
            Some((left, right)) => pairs_of(lines_of(input@)) matches Some(pairs) && left@.len()
                == pairs.len() && right@.len() == pairs.len() && forall|i: int|
                0 <= i < pairs.len() ==> #[trigger] pairs[i] == (left@[i], right@[i]),
            None => pairs_of(lines_of(input@)) is None,
        },
{
    let text = chars_of(input);
    let all = lines(&text);
    let mut gap: Vec<char> = Vec::new();
    gap.push(' ');
    gap.push(' ');
    gap.push(' ');
    assert(gap@ =~= seq![' ', ' ', ' ']);
    let mut left: Vec<i32> = Vec::new();
    let mut right: Vec<i32> = Vec::new();
    let mut i: usize = 0;
    while i < all.len()
        invariant
            i <= all.len(),
            rows(all@) == lines_of(input@),
            gap@ == seq![' ', ' ', ' '],
            left@.len() == i,
            right@.len() == i,
            forall|k: int| 0 <= k < i ==> pair_of(#[trigger] rows(all@)[k]) == Some((left@[k], right@[k])),
        decreases all.len() - i,
    {
        assert(rows(all@)[i as int] == all@[i as int]@);
        let (l, r) = match split_once(&all[i], &gap) {
            Some(both) => both,
            None => {
                assert(pair_of(rows(all@)[i as int]) is None);
                return None;
            },
        };
        let a = parse_signed(&l, i32::MIN as i64, i32::MAX as i64);
        let b = parse_signed(&r, i32::MIN as i64, i32::MAX as i64);
        match (a, b) {
            (Some(a), Some(b)) => {
                left.push(a as i32);
                right.push(b as i32);
            },
            _ => {
                assert(pair_of(rows(all@)[i as int]) is None);
                return None;
            },
        }
        i += 1;
    }
    proof {
        let pairs = pairs_of(lines_of(input@));
        assert(pairs is Some);
        assert forall|k: int| 0 <= k < pairs->0.len() implies #[trigger] pairs->0[k] == (
            left@[k],
            right@[k],
        ) by {
            assert(pair_of(rows(all@)[k]) == Some((left@[k], right@[k])));
        }
    }
    Some((left, right))
}

/// Reads two lists of numbers without sign that stand side by side, a pair
/// in each line. `None` where a line is not made so.
pub fn parse_unsigned_lists(input: &str) -> (lists: Option<(Vec<u32>, Vec<u32>)>)
    ensures
        match lists {
            Some((left, right)) => unsigned_pairs_of(lines_of(input@)) matches Some(pairs)
                && left@.len() == pairs.len() && right@.len() == pairs.len() && forall|i: int|
                0 <= i < pairs.len() ==> #[trigger] pairs[i] == (left@[i], right@[i]),
            None => unsigned_pairs_of(lines_of(input@)) is None,
        },
{
    let text = chars_of(input);
    let all = lines(&text);
    let mut gap: Vec<char> = Vec::new();
    gap.push(' ');
    gap.push(' ');
    gap.push(' ');
    assert(gap@ =~= seq![' ', ' ', ' ']);
    let mut left: Vec<u32> = Vec::new();
    let mut right: Vec<u32> = Vec::new();
    let mut i: usize = 0;
    while i < all.len()
        invariant
            i <= all.len(),
            rows(all@) == lines_of(input@),
            gap@ == seq![' ', ' ', ' '],
            left@.len() == i,
            right@.len() == i,
            forall|k: int| 0 <= k < i ==> unsigned_pair_of(#[trigger] rows(all@)[k]) == Some((left@[k], right@[k])),
        decreases all.len() - i,
    {
        assert(rows(all@)[i as int] == all@[i as int]@);
        let (l, r) = match split_once(&all[i], &gap) {
            Some(both) => both,
            None => {
                assert(unsigned_pair_of(rows(all@)[i as int]) is None);
                return None;
            },
        };
        let a = parse_unsigned(&l, u32::MAX as u64);
        let b = parse_unsigned(&r, u32::MAX as u64);
        match (a, b) {
            (Some(a), Some(b)) => {
                left.push(a as u32);
                right.push(b as u32);
            },
            _ => {
                assert(unsigned_pair_of(rows(all@)[i as int]) is None);
                return None;
            },
        }
        i += 1;
    }
    proof {
        let pairs = unsigned_pairs_of(lines_of(input@));
        assert(pairs is Some);
        assert forall|k: int| 0 <= k < pairs->0.len() implies #[trigger] pairs->0[k] == (
            left@[k],
            right@[k],
        ) by {
            assert(unsigned_pair_of(rows(all@)[k]) == Some((left@[k], right@[k])));
        }
    }
    Some((left, right))
}

} // verus!
