//! Reports of levels: a report is safe where its levels all rise or all
//! fall, each time by at least one and at most three.

use crate::text::{chars_of, lines, lines_of, parse_signed_list, rows, signed_list_of};
use vstd::prelude::*;

verus! {

/// The largest step between two levels of a safe report.
pub const MAX_DIFF: i64 = 3;

/// Whether every level of `nums` is larger than the one before it by at
/// least one and at most three.
pub open spec fn rises(nums: Seq<i32>) -> bool {
    forall|i: int| 0 < i < nums.len() ==> 1 <= #[trigger] nums[i] - nums[i - 1] <= 3
}

/// Whether every level of `nums` is smaller than the one before it by at
/// least one and at most three.
pub open spec fn falls(nums: Seq<i32>) -> bool {
    forall|i: int| 0 < i < nums.len() ==> 1 <= nums[i - 1] - #[trigger] nums[i] <= 3
}

/// Whether the report `nums` is safe.
pub open spec fn is_safe(nums: Seq<i32>) -> bool {
    rises(nums) || falls(nums)
}

/// Says whether the report `nums` is safe. The first two levels decide
/// whether the report has to rise or to fall.
pub fn is_record_valid(nums: &Vec<i32>) -> (valid: bool)
    ensures
        valid == is_safe(nums@),
{
    if nums.len() < 2 {
        return true;
    }
    let rising = nums[1] > nums[0];
    let mut i: usize = 1;
    while i < nums.len()
        invariant
            1 <= i <= nums.len(),
            nums@.len() >= 2,
            rising == (nums@[1] > nums@[0]),
            rising ==> rises(nums@.take(i as int)),
            !rising ==> falls(nums@.take(i as int)),
        decreases nums.len() - i,
    {
        let prev = nums[i - 1] as i64;
        let num = nums[i] as i64;
        let diff = if rising {
            num - prev
        } else {
            prev - num
        };
        if !(diff > 0 && diff <= MAX_DIFF) {
            proof {
                if rises(nums@) {
                    assert(1 <= nums@[i as int] - nums@[i - 1] <= 3);
                    assert(1 <= nums@[1] - nums@[0] <= 3);
                }
                if falls(nums@) {
                    assert(1 <= nums@[i - 1] - nums@[i as int] <= 3);
                    assert(1 <= nums@[0] - nums@[1] <= 3);
                }
            }
            return false;
        }
        proof {
            let now = nums@.take(i + 1);
            let was = nums@.take(i as int);
            if rising {
                assert forall|j: int| 0 < j < now.len() implies 1 <= #[trigger] now[j] - now[j
                    - 1] <= 3 by {
                    if j < i {
                        assert(1 <= was[j] - was[j - 1] <= 3);
                    }
                }
            } else {
                assert forall|j: int| 0 < j < now.len() implies 1 <= now[j - 1]
                    - #[trigger] now[j] <= 3 by {
                    if j < i {
                        assert(1 <= was[j - 1] - was[j] <= 3);
                    }
                }
            }
        }
        i += 1;
    }
    assert(nums@.take(i as int) =~= nums@);
    true
}

/// Whether the report `nums` is safe once one of its levels is left out,
/// if not before.
pub open spec fn is_safe_damped(nums: Seq<i32>) -> bool {
    is_safe(nums) || exists|k: int| 0 <= k < nums.len() && is_safe(#[trigger] nums.remove(k))
}

/// Says whether the report `nums` is safe as it is, or becomes safe when a
/// single level is left out.
pub fn is_record_valid_damped(nums: &Vec<i32>) -> (valid: bool)
    ensures
        valid == is_safe_damped(nums@),
{
    if is_record_valid(nums) {
        return true;
    }
    let mut i: usize = 0;
    while i < nums.len()
        invariant
            i <= nums.len(),
            forall|k: int| 0 <= k < i ==> !is_safe(#[trigger] nums@.remove(k)),
        decreases nums.len() - i,
    {
        let mut slice: Vec<i32> = Vec::new();
        let mut j: usize = 0;
        while j < nums.len()
            invariant
                j <= nums.len(),
                i < nums.len(),
                slice@ == if j <= i {
                    nums@.take(j as int)
                } else {
                    nums@.remove(i as int).take(j - 1)
                },
            decreases nums.len() - j,
        {
            if j != i {
                slice.push(nums[j]);
            }
            proof {
                if j < i {
                    assert(slice@ =~= nums@.take(j + 1));
                } else if j == i {
                    assert(slice@ =~= nums@.remove(i as int).take(j as int));
                } else {
                    assert(slice@ =~= nums@.remove(i as int).take(j as int));
                }
            }
            j += 1;
        }
        assert(slice@ =~= nums@.remove(i as int));
        if is_record_valid(&slice) {
            return true;
        }
        i += 1;
    }
    false
}

/// The number of entries of `reports` that `safe` holds of.
pub open spec fn count_where(reports: Seq<Vec<i32>>, safe: spec_fn(Seq<i32>) -> bool) -> nat
    decreases reports.len(),
{
    if reports.len() == 0 {
        0
    } else {
        count_where(reports.drop_last(), safe) + if safe(reports.last()@) {
            1nat
        } else {
            0nat
        }
    }
}

/// The number of safe reports; with `damped`, a report also counts where
/// leaving out one of its levels makes it safe.
pub fn count_valid(reports: &Vec<Vec<i32>>, damped: bool) -> (n: usize)
    ensures
        !damped ==> n == count_where(reports@, |r: Seq<i32>| is_safe(r)),
        damped ==> n == count_where(reports@, |r: Seq<i32>| is_safe_damped(r)),
{
    let mut n: usize = 0;
    let mut i: usize = 0;
    assert(reports@.take(0) =~= Seq::<Vec<i32>>::empty());
    while i < reports.len()
        invariant
            i <= reports.len(),
            n <= i,
            !damped ==> n == count_where(reports@.take(i as int), |r: Seq<i32>| is_safe(r)),
            damped ==> n == count_where(reports@.take(i as int), |r: Seq<i32>| is_safe_damped(r)),
        decreases reports.len() - i,
    {
        let valid = if damped {
            is_record_valid_damped(&reports[i])
        } else {
            is_record_valid(&reports[i])
        };
        proof {
            assert(reports@.take(i + 1).drop_last() =~= reports@.take(i as int));
        }
        if valid {
            n += 1;
        }
        i += 1;
    }
    assert(reports@.take(i as int) =~= reports@);
    n
}

/// The levels that the line `line` holds, with single spaces between them.
pub open spec fn levels_of(line: Seq<char>) -> Option<Seq<int>> {
    signed_list_of(line, ' ', i32::MIN as int, i32::MAX as int)
}

/// Whether `report` holds the levels of `line`.
pub open spec fn holds_levels(line: Seq<char>, report: Seq<i32>) -> bool {
    &&& levels_of(line) matches Some(levels)
    &&& levels.len() == report.len()
    &&& forall|j: int| 0 <= j < levels.len() ==> #[trigger] report[j] as int == levels[j]
}

/// Whether `reports` holds the levels of `lines`, line by line.
pub open spec fn holds_reports(lines: Seq<Seq<char>>, reports: Seq<Vec<i32>>) -> bool {
    &&& reports.len() == lines.len()
    &&& forall|i: int| 0 <= i < lines.len() ==> holds_levels(#[trigger] lines[i], reports[i]@)
}

/// Reads the reports, one in each line. `None` where a line holds
/// something else than levels with single spaces between them.
pub fn parse_reports(input: &str) -> (reports: Option<Vec<Vec<i32>>>)
    ensures
        match reports {
            Some(r) => holds_reports(lines_of(input@), r@),
            None => exists|i: int|
                0 <= i < lines_of(input@).len() && levels_of(#[trigger] lines_of(input@)[i]) is None,
        },
{
    let text = chars_of(input);
    let all = lines(&text);
    let mut reports: Vec<Vec<i32>> = Vec::new();
    let mut i: usize = 0;
    while i < all.len()
        invariant
            i <= all.len(),
            rows(all@) == lines_of(input@),
            holds_reports(rows(all@).take(i as int), reports@),
        decreases all.len() - i,
    {
        assert(rows(all@)[i as int] == all@[i as int]@);
        let levels = match parse_signed_list(&all[i], ' ', i32::MIN as i64, i32::MAX as i64) {
            Some(levels) => levels,
            None => {
                return None;
            },
        };
        let mut report: Vec<i32> = Vec::new();
        let mut j: usize = 0;
        while j < levels.len()
            invariant
                j <= levels.len(),
                report@.len() == j,
                forall|k: int| 0 <= k < levels@.len() ==> i32::MIN <= #[trigger] levels@[k] <= i32::MAX,
                forall|k: int| 0 <= k < j ==> #[trigger] report@[k] == levels@[k],
            decreases levels.len() - j,
        {
            report.push(levels[j] as i32);
            j += 1;
        }
        let ghost before = reports@;
        reports.push(report);
        proof {
            let now = rows(all@).take(i + 1);
            assert forall|k: int| 0 <= k < now.len() implies holds_levels(
                #[trigger] now[k],
                reports@[k]@,
            ) by {
                if k < i {
                    assert(now[k] == rows(all@).take(i as int)[k]);
                    assert(reports@[k] == before[k]);
                }
            }
        }
        i += 1;
    }
    assert(rows(all@).take(i as int) =~= rows(all@));
    Some(reports)
}

} // verus!
