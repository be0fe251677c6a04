//! A disk of files and gaps, and its checksum.

use crate::text::{chars_of, is_digit};
use vstd::prelude::*;

verus! {

/// A file on the disk: its id, the position of its first block, and its
/// number of blocks.
pub type File = (usize, usize, usize);

/// A gap on the disk: the position of its first block, and its number of
/// blocks.
pub type Gap = (usize, usize);

/// The checksum of the first `len` blocks of a file that begins at `pos`:
/// for each block its position times the id of the file.
pub open spec fn blocks_checksum(id: int, pos: int, len: int) -> int
    decreases len,
{
    if len <= 0 {
        0
    } else {
        blocks_checksum(id, pos, len - 1) + (len - 1 + pos) * id
    }
}

/// The checksum of `files`: the sum of the checksums of their blocks.
pub open spec fn checksum_of(files: Seq<File>) -> int
    decreases files.len(),
{
    if files.len() == 0 {
        0
    } else {
        checksum_of(files.drop_last()) + blocks_checksum(
            files.last().0 as int,
            files.last().1 as int,
            files.last().2 as int,
        )
    }
}

/// The checksum of some blocks of a file is not negative, and at most the
/// checksum of more blocks.
pub proof fn lemma_blocks_checksum_grows(id: int, pos: int, shorter: int, longer: int)
    requires
        0 <= id,
        0 <= pos,
        0 <= shorter <= longer,
    ensures
        0 <= blocks_checksum(id, pos, shorter) <= blocks_checksum(id, pos, longer),
    decreases longer,
{
    if shorter < longer {
        lemma_blocks_checksum_grows(id, pos, shorter, longer - 1);
        assert((longer - 1 + pos) * id >= 0) by (nonlinear_arith)
            requires
                longer - 1 + pos >= 0,
                id >= 0,
        ;
    } else if shorter > 0 {
        lemma_blocks_checksum_grows(id, pos, shorter - 1, longer - 1);
        assert((longer - 1 + pos) * id >= 0) by (nonlinear_arith)
            requires
                longer - 1 + pos >= 0,
                id >= 0,
        ;
    }
}

/// The blocks of the file with the id zero do not count.
pub proof fn lemma_blocks_checksum_zero(pos: int, len: int)
    ensures
        blocks_checksum(0, pos, len) == 0,
    decreases len,
{
    if len > 0 {
        lemma_blocks_checksum_zero(pos, len - 1);
    }
}

/// The checksum of the first files is not negative, and at most the
/// checksum of all.
pub proof fn lemma_checksum_grows(files: Seq<File>, n: int)
    requires
        0 <= n <= files.len(),
    ensures
        0 <= checksum_of(files.take(n)) <= checksum_of(files),
    decreases files.len(),
{
    if n == files.len() {
        assert(files.take(n) =~= files);
        if n > 0 {
            lemma_checksum_grows(files.drop_last(), n - 1);
            assert(files.drop_last().take(n - 1) =~= files.take(n - 1));
            let last = files.last();
            lemma_blocks_checksum_grows(last.0 as int, last.1 as int, 0, last.2 as int);
            lemma_checksum_grows(files.drop_last(), 0);
        }
    } else {
        lemma_checksum_grows(files.drop_last(), n);
        assert(files.drop_last().take(n) =~= files.take(n));
        let last = files.last();
        lemma_blocks_checksum_grows(last.0 as int, last.1 as int, 0, last.2 as int);
    }
}

/// The disk: its files and its gaps, both in the order of their positions.
#[derive(Clone)]
pub struct Disk {
    pub files_list: Vec<File>,
    pub gaps_list: Vec<Gap>,
}

impl Disk {
    /// The checksum of `files`, or `None` where it does not fit in a
    /// `usize`.
    pub fn checked_checksum(files: &Vec<File>) -> (sum: Option<usize>)
        ensures
            match sum {
                Some(s) => s == checksum_of(files@),
                None => checksum_of(files@) > usize::MAX,
            },
    {
        let mut sum: usize = 0;
        let mut i: usize = 0;
        assert(files@.take(0) =~= Seq::<File>::empty());
        while i < files.len()
            invariant
                i <= files.len(),
                sum == checksum_of(files@.take(i as int)),
            decreases files.len() - i,
        {
            let (id, pos, len) = files[i];
            proof {
                assert(files@.take(i + 1).drop_last() =~= files@.take(i as int));
                lemma_checksum_grows(files@, i + 1);
            }
            let mut y: usize = 0;
            let mut part: usize = 0;
            proof {
                if id == 0 {
                    lemma_blocks_checksum_zero(pos as int, len as int);
                }
            }
            while id != 0 && y < len
                invariant
                    y <= len,
                    id == 0 ==> part == blocks_checksum(id as int, pos as int, len as int),
                    id != 0 ==> part == blocks_checksum(id as int, pos as int, y as int),
                    sum + blocks_checksum(id as int, pos as int, len as int) <= checksum_of(files@),
                    0 <= sum,
                decreases len - y,
            {
                proof {
                    lemma_blocks_checksum_grows(id as int, pos as int, y + 1, len as int);
                    lemma_blocks_checksum_grows(id as int, pos as int, y as int, y + 1);
                }
                let place = match y.checked_add(pos) {
                    Some(place) => place,
                    None => {
                        proof {
                            assert((y + pos) * id >= y + pos) by (nonlinear_arith)
                                requires
                                    id >= 1,
                                    y + pos >= 0,
                            ;
                        }
                        return None;
                    },
                };
                let term = match place.checked_mul(id) {
                    Some(term) => term,
                    None => {
                        return None;
                    },
                };
                part = match part.checked_add(term) {
                    Some(part) => part,
                    None => {
                        return None;
                    },
                };
                y += 1;
            }
            sum = match sum.checked_add(part) {
                Some(sum) => sum,
                None => {
                    return None;
                },
            };
            i += 1;
        }
        assert(files@.take(i as int) =~= files@);
        Some(sum)
    }

    /// The checksum of `files`.
    pub fn calc_checksum(files: Vec<File>) -> (sum: usize)
        requires
            checksum_of(files@) <= usize::MAX,
        ensures
            sum == checksum_of(files@),
    {
        match Disk::checked_checksum(&files) {
            Some(sum) => sum,
            None => 0,
        }
    }
}

/// What has been read of a disk map: the files, the gaps, whether a file
/// comes next, the id of the next file, and the position of the next block.
pub type Reading = (Seq<File>, Seq<Gap>, bool, nat, nat);

/// What the digit `c` makes of the reading: a file or a gap of as many
/// blocks as the digit says, files and gaps taking turns. Nothing is noted
/// for a digit 0.
pub open spec fn after_digit(c: char, reading: Reading) -> Reading {
    let num = (c as u32 - '0' as u32) as nat;
    let files = if num > 0 && reading.2 {
        reading.0.push((reading.3 as usize, reading.4 as usize, num as usize))
    } else {
        reading.0
    };
    let gaps = if num > 0 && !reading.2 {
        reading.1.push((reading.4 as usize, num as usize))
    } else {
        reading.1
    };
    (
        files,
        gaps,
        !reading.2,
        if reading.2 {
            reading.3 + 1
        } else {
            reading.3
        },
        reading.4 + num,
    )
}

/// The reading after the digits `text`.
pub open spec fn after_digits(text: Seq<char>) -> Reading
    decreases text.len(),
{
    if text.len() == 0 {
        (Seq::empty(), Seq::empty(), true, 0, 0)
    } else {
        after_digit(text.last(), after_digits(text.drop_last()))
    }
}

/// The next block lies no further than nine blocks for each digit, and the
/// next file has at most the number of digits as id.
proof fn lemma_reading_bounds(text: Seq<char>)
    requires
        forall|i: int| 0 <= i < text.len() ==> is_digit(#[trigger] text[i]),
    ensures
        after_digits(text).3 <= text.len(),
        after_digits(text).4 <= 9 * text.len(),
    decreases text.len(),
{
    if text.len() > 0 {
        assert forall|i: int| 0 <= i < text.drop_last().len() implies is_digit(
            #[trigger] text.drop_last()[i],
        ) by {
            assert(text.drop_last()[i] == text[i]);
        }
        lemma_reading_bounds(text.drop_last());
        assert(is_digit(text[text.len() - 1]));
    }
}

/// Whether every file and every gap ends within the `usize` range.
pub open spec fn fits(files: Seq<File>, gaps: Seq<Gap>) -> bool {
    &&& forall|i: int| 0 <= i < files.len() ==> (#[trigger] files[i]).1 + files[i].2 <= usize::MAX
    &&& forall|i: int| 0 <= i < gaps.len() ==> (#[trigger] gaps[i]).0 + gaps[i].1 <= usize::MAX
}

/// The place of the first of `gaps`, from the place `from` on, that begins
/// before `pos_st` and has at least `len` blocks; the number of gaps where
/// there is none.
pub open spec fn first_gap(gaps: Seq<Gap>, pos_st: usize, len: usize, from: int) -> int
    decreases gaps.len() - from,
{
    if from < 0 || from >= gaps.len() {
        gaps.len() as int
    } else if gaps[from].0 < pos_st && gaps[from].1 >= len {
        from
    } else {
        first_gap(gaps, pos_st, len, from + 1)
    }
}

/// The gaps and the moved blocks after the last `d` blocks of the file
/// `id` that begins at `pos_st` have been moved, one after the other from
/// the last on: each into the first block of the first gap that begins
/// before the file, or, where no such gap is left, nowhere.
pub open spec fn blocks_moved(
    id: usize,
    pos_st: usize,
    d: nat,
    gaps: Seq<Gap>,
    moved: Seq<File>,
) -> (Seq<Gap>, Seq<File>)
    decreases d,
{
    if d == 0 {
        (gaps, moved)
    } else {
        let k = first_gap(gaps, pos_st, 0, 0);
        if k < gaps.len() {
            let gap = gaps[k];
            blocks_moved(
                id,
                pos_st,
                (d - 1) as nat,
                if gap.1 > 1 {
                    gaps.update(k, ((gap.0 + 1) as usize, (gap.1 - 1) as usize))
                } else {
                    gaps.remove(k)
                },
                moved.push((id, gap.0, 1)),
            )
        } else {
            blocks_moved(
                id,
                pos_st,
                (d - 1) as nat,
                gaps,
                moved.push((id, (pos_st + d - 1) as usize, 1)),
            )
        }
    }
}

/// The moved blocks after all of `files` have been taken from the last to
/// the first and their blocks moved into the gaps before them.
pub open spec fn blocks_compacted(files: Seq<File>, gaps: Seq<Gap>, moved: Seq<File>) -> Seq<File>
    decreases files.len(),
{
    if files.len() == 0 {
        moved
    } else {
        let file = files.last();
        let after = blocks_moved(file.0, file.1, file.2 as nat, gaps, moved);
        blocks_compacted(files.drop_last(), after.0, after.1)
    }
}

/// The gaps and the moved files after all of `files` have been taken from
/// the last to the first and each moved as a whole into the first gap
/// before it that is large enough, if there is one. The place that a file
/// leaves becomes a gap.
pub open spec fn files_compacted(files: Seq<File>, gaps: Seq<Gap>, moved: Seq<File>) -> Seq<File>
    decreases files.len(),
{
    if files.len() == 0 {
        moved
    } else {
        let file = files.last();
        let k = first_gap(gaps, file.1, file.2, 0);
        if k < gaps.len() {
            let gap = gaps[k];
            files_compacted(
                files.drop_last(),
                (if gap.1 == file.2 {
                    gaps.remove(k)
                } else {
                    gaps.update(k, ((gap.0 + file.2) as usize, (gap.1 - file.2) as usize))
                }).push((file.1, file.2)),
                moved.push((file.0, gap.0, file.2)),
            )
        } else {
            files_compacted(files.drop_last(), gaps, moved.push(file))
        }
    }
}

/// Finds the first gap that begins before `pos_st` and has at least `len`
/// blocks.
fn find_gap(gaps: &Vec<Gap>, pos_st: usize, len: usize) -> (k: usize)
    ensures
        k == first_gap(gaps@, pos_st, len, 0),
        k <= gaps@.len(),
        k < gaps@.len() ==> gaps@[k as int].0 < pos_st && gaps@[k as int].1 >= len,
{
    let mut k: usize = 0;
    while k < gaps.len()
        invariant
            k <= gaps.len(),
            first_gap(gaps@, pos_st, len, 0) == first_gap(gaps@, pos_st, len, k as int),
        decreases gaps.len() - k,
    {
        let gap = gaps[k];
        if gap.0 < pos_st && gap.1 >= len {
            return k;
        }
        k += 1;
    }
    k
}

impl Disk {
    /// Reads a disk from its map: a digit for the length of each file and
    /// each gap, taking turns. `None` where the map holds something else
    /// than digits.
    pub fn from_str(s: &str) -> (disk: Option<Disk>)
        requires
            9 * s@.len() <= usize::MAX,
        ensures
            match disk {
                Some(d) => d.files_list@ == after_digits(s@).0 && d.gaps_list@ == after_digits(
                    s@,
                ).1 && fits(d.files_list@, d.gaps_list@) && forall|i: int|
                    0 <= i < s@.len() ==> is_digit(#[trigger] s@[i]),
                None => exists|i: int| 0 <= i < s@.len() && !is_digit(#[trigger] s@[i]),
            },
    {
        let text = chars_of(s);
        let mut files_list: Vec<File> = Vec::new();
        let mut gaps_list: Vec<Gap> = Vec::new();
        let mut file_space = true;
        let mut id: usize = 0;
        let mut pos: usize = 0;
        let mut i: usize = 0;
        assert(text@.take(0) =~= Seq::<char>::empty());
        while i < text.len()
            invariant
                i <= text.len(),
                text@ == s@,
                9 * text@.len() <= usize::MAX,
                forall|k: int| 0 <= k < i ==> is_digit(#[trigger] text@[k]),
                after_digits(text@.take(i as int)) == (
                    files_list@,
                    gaps_list@,
                    file_space,
                    id as nat,
                    pos as nat,
                ),
                id <= i,
                pos <= 9 * i,
                fits(files_list@, gaps_list@),
            decreases text.len() - i,
        {
            let c = text[i];
            if c < '0' || c > '9' {
                assert(!is_digit(s@[i as int]));
                return None;
            }
            let num = (c as u32 - '0' as u32) as usize;
            proof {
                assert(text@.take(i + 1).drop_last() =~= text@.take(i as int));
                assert(text@.take(i + 1).last() == c);
            }
            if num > 0 {
                if file_space {
                    files_list.push((id, pos, num));
                } else {
                    gaps_list.push((pos, num));
                }
            }
            if file_space {
                id += 1;
            }
            pos += num;
            file_space = !file_space;
            i += 1;
        }
        assert(text@.take(i as int) =~= text@);
        Some(Disk { files_list, gaps_list })
    }

    /// Moves the blocks of the files, from the last block of the last file
    /// on, into the first free blocks before them, and gives the blocks in
    /// the order in which they were placed, each as a file of one block.
    pub fn compact_blocks(disk: Disk) -> (moved: Vec<File>)
        requires
            fits(disk.files_list@, disk.gaps_list@),
        ensures
            moved@ == blocks_compacted(disk.files_list@, disk.gaps_list@, Seq::empty()),
    {
        let mut disk = disk;
        let ghost files = disk.files_list@;
        let ghost gaps = disk.gaps_list@;
        let mut moved_files: Vec<File> = Vec::new();
        while disk.files_list.len() > 0
            invariant
                fits(disk.files_list@, disk.gaps_list@),
                blocks_compacted(disk.files_list@, disk.gaps_list@, moved_files@)
                    == blocks_compacted(files, gaps, Seq::empty()),
            decreases disk.files_list@.len(),
        {
            let ghost before = disk.files_list@;
            assert(before.last().1 + before.last().2 <= usize::MAX);
            let (id, pos_st, len) = disk.files_list.pop().unwrap();
            let mut d: usize = len;
            while d > 0
                invariant
                    d <= len,
                    pos_st + len <= usize::MAX,
                    disk.files_list@ == before.drop_last(),
                    fits(disk.files_list@, disk.gaps_list@),
                    blocks_compacted(
                        disk.files_list@,
                        blocks_moved(id, pos_st, d as nat, disk.gaps_list@, moved_files@).0,
                        blocks_moved(id, pos_st, d as nat, disk.gaps_list@, moved_files@).1,
                    ) == blocks_compacted(files, gaps, Seq::empty()),
                decreases d,
            {
                let g_idx = find_gap(&disk.gaps_list, pos_st, 0);
                if g_idx < disk.gaps_list.len() {
                    let (g_pos, g_len) = disk.gaps_list[g_idx];
                    moved_files.push((id, g_pos, 1));
                    if g_len > 1 {
                        disk.gaps_list.set(g_idx, (g_pos + 1, g_len - 1));
                    } else {
                        disk.gaps_list.remove(g_idx);
                    }
                } else {
                    moved_files.push((id, pos_st + (d - 1), 1));
                }
                d -= 1;
            }
        }
        moved_files
    }

    /// Moves the files, from the last on, each as a whole into the first
    /// gap before it that is large enough, and gives the files in the order
    /// in which they were placed.
    pub fn compact_files(disk: Disk) -> (moved: Vec<File>)
        requires
            fits(disk.files_list@, disk.gaps_list@),
        ensures
            moved@ == files_compacted(disk.files_list@, disk.gaps_list@, Seq::empty()),
    {
        let mut disk = disk;
        let ghost files = disk.files_list@;
        let ghost gaps = disk.gaps_list@;
        let mut moved_files: Vec<File> = Vec::new();
        while disk.files_list.len() > 0
            invariant
                fits(disk.files_list@, disk.gaps_list@),
                files_compacted(disk.files_list@, disk.gaps_list@, moved_files@) == files_compacted(
                    files,
                    gaps,
                    Seq::empty(),
                ),
            decreases disk.files_list@.len(),
        {
            let ghost before = disk.files_list@;
            assert(before.last().1 + before.last().2 <= usize::MAX);
            let (id, pos_st, len) = disk.files_list.pop().unwrap();
            let g_idx = find_gap(&disk.gaps_list, pos_st, len);
            if g_idx < disk.gaps_list.len() {
                let (g_pos, g_len) = disk.gaps_list[g_idx];
                moved_files.push((id, g_pos, len));
                if g_len == len {
                    disk.gaps_list.remove(g_idx);
                    disk.gaps_list.push((pos_st, len));
                } else {
                    let diff = g_len - len;
                    disk.gaps_list.set(g_idx, (g_pos + len, diff));
                    disk.gaps_list.push((pos_st, len));
                }
            } else {
                moved_files.push((id, pos_st, len));
            }
        }
        moved_files
    }
}

impl Disk {
    /// Says whether every file and every gap of the disk ends within the
    /// `usize` range.
    pub fn is_fit(&self) -> (ok: bool)
        ensures
            ok == fits(self.files_list@, self.gaps_list@),
    {
        let mut i: usize = 0;
        while i < self.files_list.len()
            invariant
                i <= self.files_list.len(),
                forall|k: int|
                    0 <= k < i ==> (#[trigger] self.files_list@[k]).1 + self.files_list@[k].2
                        <= usize::MAX,
            decreases self.files_list.len() - i,
        {
            let file = self.files_list[i];
            if file.1.checked_add(file.2).is_none() {
                return false;
            }
            i += 1;
        }
        let mut i: usize = 0;
        while i < self.gaps_list.len()
            invariant
                i <= self.gaps_list.len(),
                forall|k: int|
                    0 <= k < self.files_list@.len() ==> (#[trigger] self.files_list@[k]).1
                        + self.files_list@[k].2 <= usize::MAX,
                forall|k: int|
                    0 <= k < i ==> (#[trigger] self.gaps_list@[k]).0 + self.gaps_list@[k].1
                        <= usize::MAX,
            decreases self.gaps_list.len() - i,
        {
            let gap = self.gaps_list[i];
            if gap.0.checked_add(gap.1).is_none() {
                return false;
            }
            i += 1;
        }
        true
    }
}

} // verus!
