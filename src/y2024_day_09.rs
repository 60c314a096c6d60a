//! Disk fragmenter: a disk map of alternating file and free-space lengths,
//! compacted block by block, then file by file, and its checksum.
use crate::clock::{decimal_of, decimal_u128, elapsed_since, nanos_of, start_clock};
use crate::text::{chars_of, lines_spec, lines_view, split_lines};
use vstd::prelude::*;

verus! {

/// Largest disk map handled: file numbers, up to half its length, are `i32`.
pub const MAX_MAP: usize = 4294967295;

#[derive(Clone, Copy, PartialEq, Eq, Structural, Debug)]
pub enum DataBlock {
    Space,
    Data(i32),
}

pub open spec fn is_digit_char(c: char) -> bool {
    '0' <= c && c <= '9'
}

/// The blocks of the first `k` entries of a disk map: even entries are
/// files, numbered 0, 1, ..., odd ones free space.
pub open spec fn blocks_upto(s: Seq<char>, k: int) -> Seq<DataBlock>
    decreases k,
{
    if k <= 0 {
        Seq::empty()
    } else {
        let n = (s[k - 1] as u32 - '0' as u32) as int;
        let b = if (k - 1) % 2 == 0 {
            DataBlock::Data(((k - 1) / 2) as i32)
        } else {
            DataBlock::Space
        };
        blocks_upto(s, k - 1) + Seq::new(n as nat, |i: int| b)
    }
}

/// The map is all digits and not too long.
pub open spec fn map_fits(s: Seq<char>) -> bool {
    &&& s.len() <= MAX_MAP
    &&& forall|i: int| 0 <= i < s.len() ==> is_digit_char(#[trigger] s[i])
}

pub open spec fn digit_value(c: char) -> int {
    (c as u32 - '0' as u32) as int
}

/// Where the first `k` entries start, and how long each is: (files, spaces).
pub open spec fn maps_upto(s: Seq<char>, k: int) -> (Seq<(int, int)>, Seq<(int, int)>)
    decreases k,
{
    if k <= 0 {
        (Seq::empty(), Seq::empty())
    } else {
        let (d, f) = maps_upto(s, k - 1);
        let at = blocks_upto(s, k - 1).len() as int;
        let n = digit_value(s[k - 1]);
        if (k - 1) % 2 == 0 {
            (d.push((at, n)), f)
        } else {
            (d, f.push((at, n)))
        }
    }
}

pub proof fn lemma_blocks_len(s: Seq<char>, k: int)
    requires
        0 <= k <= s.len(),
        map_fits(s),
    ensures
        blocks_upto(s, k).len() <= 9 * k,
    decreases k,
{
    if k > 0 {
        lemma_blocks_len(s, k - 1);
    }
}

pub open spec fn blocks_view(v: Seq<DataBlock>) -> Seq<DataBlock> {
    v
}

/// The blocks of a disk map.
pub fn parse_input(lines: &Vec<&str>) -> (r: Option<Vec<DataBlock>>)
    ensures
        r is Some <==> lines@.len() >= 1 && map_fits(lines@[0]@),
        r matches Some(v) ==> v@ == blocks_upto(lines@[0]@, lines@[0]@.len() as int),
{
    match parse_input_for_mapping_data(lines) {
        Some((data, _, _)) => Some(data),
        None => None,
    }
}

pub open spec fn pairs_view(v: Seq<(usize, usize)>) -> Seq<(int, int)> {
    v.map_values(|p: (usize, usize)| (p.0 as int, p.1 as int))
}

/// The blocks of a disk map, and where each file and each free space starts
/// and how long it is.
pub fn parse_input_for_mapping_data(lines: &Vec<&str>) -> (r: Option<(Vec<DataBlock>, Vec<(usize, usize)>, Vec<(usize, usize)>)>)
    ensures
        r is Some <==> lines@.len() >= 1 && map_fits(lines@[0]@),
        r matches Some((b, d, f)) ==> b@ == blocks_upto(lines@[0]@, lines@[0]@.len() as int) && (pairs_view(d@), pairs_view(f@))
            == maps_upto(lines@[0]@, lines@[0]@.len() as int),
{
    if lines.len() == 0 {
        return None;
    }
    let s = chars_of(lines[0]);
    if s.len() > MAX_MAP {
        return None;
    }
    let mut result: Vec<DataBlock> = Vec::new();
    let mut data_map: Vec<(usize, usize)> = Vec::new();
    let mut free_space_map: Vec<(usize, usize)> = Vec::new();
    let mut index: usize = 0;
    while index < s.len()
        invariant
            s@ == lines@[0]@,
            s@.len() <= MAX_MAP,
            index <= s.len(),
            forall|i: int| 0 <= i < index ==> is_digit_char(#[trigger] s@[i]),
            result@ == blocks_upto(s@, index as int),
            result@.len() <= 9 * index,
            (pairs_view(data_map@), pairs_view(free_space_map@)) == maps_upto(s@, index as int),
        decreases s.len() - index,
    {
        let c = s[index];
        if !('0' <= c && c <= '9') {
            assert(!map_fits(s@)) by {
                assert(!is_digit_char(s@[index as int]));
            }
            return None;
        }
        let total_blocks = (c as u32 - '0' as u32) as usize;
        let at = result.len();
        let block = if index % 2 == 0 {
            DataBlock::Data((index / 2) as i32)
        } else {
            DataBlock::Space
        };
        if index % 2 == 0 {
            let ghost pd = pairs_view(data_map@);
            data_map.push((at, total_blocks));
            assert(pairs_view(data_map@) =~= pd.push((at as int, total_blocks as int)));
        } else {
            let ghost pf = pairs_view(free_space_map@);
            free_space_map.push((at, total_blocks));
            assert(pairs_view(free_space_map@) =~= pf.push((at as int, total_blocks as int)));
        }
        let ghost before = result@;
        let mut k: usize = 0;
        while k < total_blocks
            invariant
                k <= total_blocks,
                result@ == before + Seq::new(k as nat, |i: int| block),
            decreases total_blocks - k,
        {
            result.push(block);
            k = k + 1;
            assert(result@ =~= before + Seq::new(k as nat, |i: int| block));
        }
        index = index + 1;
    }
    Some((result, data_map, free_space_map))
}

/// Fills the free block at `i` with the last file block at or before `last`
/// and beyond `i`, freeing that one; where no such block is left, nothing
/// changes. Returns the blocks and where the search stopped.
pub open spec fn fill_hole(data: Seq<DataBlock>, result: Seq<DataBlock>, i: int, last: int) -> (Seq<DataBlock>, int)
    decreases last,
{
    if i < 0 || last <= i || last >= data.len() {
        (result, last)
    } else {
        match data[last] {
            DataBlock::Data(id) => (result.update(i, DataBlock::Data(id)).update(last, DataBlock::Space), last - 1),
            DataBlock::Space => fill_hole(data, result, i, last - 1),
        }
    }
}

/// Block-by-block compaction from block `i` on, `last` being the block the
/// search for files starts from; it stops once the two meet.
pub open spec fn compact_from(data: Seq<DataBlock>, result: Seq<DataBlock>, i: int, last: int) -> Seq<DataBlock>
    decreases data.len() - i,
{
    if i < 0 || i >= data.len() {
        result
    } else {
        let (r2, l2) = if data[i] == DataBlock::Space {
            fill_hole(data, result, i, last)
        } else {
            (result, last)
        };
        if i < l2 {
            compact_from(data, r2, i + 1, l2)
        } else {
            r2
        }
    }
}

pub open spec fn compacted(data: Seq<DataBlock>) -> Seq<DataBlock> {
    compact_from(data, data, 0, if data.len() > 0 { data.len() - 1 } else { 0 })
}

pub proof fn lemma_fill_hole(data: Seq<DataBlock>, result: Seq<DataBlock>, i: int, last: int)
    requires
        0 <= i < data.len(),
        result.len() == data.len(),
        0 <= last < data.len(),
    ensures
        fill_hole(data, result, i, last).0.len() == data.len(),
        0 <= fill_hole(data, result, i, last).1 <= last,
    decreases last,
{
    if !(last <= i) {
        if data[last] == DataBlock::Space {
            lemma_fill_hole(data, result, i, last - 1);
        }
    }
}

/// Moves file blocks from the end into the free blocks from the start, one
/// block at a time.
pub fn process_data(data: &Vec<DataBlock>) -> (r: Vec<DataBlock>)
    ensures
        r@ == compacted(data@),
{
    let ghost d = data@;
    let mut result: Vec<DataBlock> = Vec::new();
    let mut k: usize = 0;
    while k < data.len()
        invariant
            k <= data.len(),
            result@ == data@.take(k as int),
        decreases data.len() - k,
    {
        result.push(data[k]);
        k = k + 1;
        assert(result@ =~= data@.take(k as int));
    }
    assert(data@.take(data.len() as int) =~= data@);
    if data.len() == 0 {
        return result;
    }
    let mut last_index: usize = data.len() - 1;
    let mut index: usize = 0;
    while index < data.len()
        invariant
            d == data@,
            index < data.len(),
            last_index < data.len(),
            result@.len() == data@.len(),
            compacted(d) == compact_from(d, result@, index as int, last_index as int),
        decreases data.len() - index,
    {
        let ghost r0 = result@;
        let ghost l0 = last_index as int;
        if data[index] == DataBlock::Space {
            let mut done = false;
            while !done && last_index > index
                invariant
                    d == data@,
                    index < data.len(),
                    last_index < data.len(),
                    r0.len() == d.len(),
                    done ==> (result@, last_index as int) == fill_hole(d, r0, index as int, l0),
                    !done ==> result@ == r0 && fill_hole(d, r0, index as int, l0) == fill_hole(
                        d,
                        r0,
                        index as int,
                        last_index as int,
                    ),
                decreases last_index, if done { 0int } else { 1int },
            {
                match data[last_index] {
                    DataBlock::Data(id) => {
                        result.set(index, DataBlock::Data(id));
                        result.set(last_index, DataBlock::Space);
                        last_index = last_index - 1;
                        done = true;
                    },
                    DataBlock::Space => {
                        last_index = last_index - 1;
                    },
                }
            }
        }
        proof {
            lemma_fill_hole(d, r0, index as int, l0);
        }
        assert((result@, last_index as int) == if d[index as int] == DataBlock::Space {
            fill_hole(d, r0, index as int, l0)
        } else {
            (r0, l0)
        });
        if !(index < last_index) {
            return result;
        }
        index = index + 1;
    }
    result
}

/// The first free space, scanning from entry `k`, that holds `size` blocks;
/// the scan gives up at a space that does not hold them and does not lie
/// before the file. -1 where there is none.
pub open spec fn find_space(spaces: Seq<(int, int)>, d_idx: int, size: int, k: int) -> int
    decreases spaces.len() - k,
{
    if k < 0 || k >= spaces.len() {
        -1
    } else if size <= spaces[k].1 {
        k
    } else if spaces[k].0 < d_idx {
        find_space(spaces, d_idx, size, k + 1)
    } else {
        -1
    }
}

/// The blocks once the first `k` blocks from `s_idx` take the file number at
/// `d_idx` (where there is one there).
pub open spec fn copy_into(r: Seq<DataBlock>, d_idx: int, s_idx: int, k: int) -> Seq<DataBlock>
    decreases k,
{
    if k <= 0 {
        r
    } else {
        let r1 = copy_into(r, d_idx, s_idx, k - 1);
        if 0 <= d_idx < r1.len() {
            match r1[d_idx] {
                DataBlock::Data(id) => r1.update(s_idx + k - 1, DataBlock::Data(id)),
                DataBlock::Space => r1,
            }
        } else {
            r1
        }
    }
}

/// The blocks once the first `k` blocks from `d_idx` are freed.
pub open spec fn clear_range(r: Seq<DataBlock>, d_idx: int, k: int) -> Seq<DataBlock>
    decreases k,
{
    if k <= 0 {
        r
    } else {
        clear_range(r, d_idx, k - 1).update(d_idx + k - 1, DataBlock::Space)
    }
}

/// One file moved to the first free space that holds it, if any.
pub open spec fn move_file(st: (Seq<DataBlock>, Seq<(int, int)>), file: (int, int)) -> (Seq<DataBlock>, Seq<(int, int)>) {
    let (blocks, spaces) = st;
    let (d_idx, size) = file;
    let j = find_space(spaces, d_idx, size, 0);
    if j < 0 {
        st
    } else {
        let moved = clear_range(copy_into(blocks, d_idx, spaces[j].0, size), d_idx, size);
        if size == spaces[j].1 {
            (moved, spaces.remove(j))
        } else {
            (moved, spaces.update(j, (spaces[j].0 + size, spaces[j].1 - size)))
        }
    }
}

/// The files `i`, `i - 1`, ..., 0 moved in turn.
pub open spec fn move_files(st: (Seq<DataBlock>, Seq<(int, int)>), files: Seq<(int, int)>, i: int) -> (Seq<DataBlock>, Seq<(int, int)>)
    decreases i + 1,
{
    if i < 0 || i >= files.len() {
        st
    } else {
        move_files(move_file(st, files[i]), files, i - 1)
    }
}

/// Every entry lies within the blocks.
pub open spec fn entries_fit(entries: Seq<(int, int)>, len: int) -> bool {
    forall|k: int| 0 <= k < entries.len() ==> 0 <= (#[trigger] entries[k]).0 && 0 <= entries[k].1 && entries[k].0 + entries[k].1 <= len
}

pub proof fn lemma_find_space(spaces: Seq<(int, int)>, d_idx: int, size: int, k: int)
    requires
        0 <= k,
    ensures
        -1 <= find_space(spaces, d_idx, size, k) < spaces.len(),
        find_space(spaces, d_idx, size, k) >= 0 ==> size <= spaces[find_space(spaces, d_idx, size, k)].1,
    decreases spaces.len() - k,
{
    if k < spaces.len() && !(size <= spaces[k].1) && spaces[k].0 < d_idx {
        lemma_find_space(spaces, d_idx, size, k + 1);
    }
}

/// Moves whole files, from the last to the first, each into the first free
/// space before it that holds it.
pub fn process_data_with_mapping_data(
    data: &Vec<DataBlock>,
    data_map: Vec<(usize, usize)>,
    space_map: Vec<(usize, usize)>,
) -> (r: Vec<DataBlock>)
    requires
        entries_fit(pairs_view(data_map@), data@.len() as int),
        entries_fit(pairs_view(space_map@), data@.len() as int),
    ensures
        r@ == move_files((data@, pairs_view(space_map@)), pairs_view(data_map@), data_map@.len() - 1).0,
{
    let ghost files = pairs_view(data_map@);
    let ghost goal = move_files((data@, pairs_view(space_map@)), files, data_map@.len() - 1);
    let mut space_map = space_map;
    let mut result: Vec<DataBlock> = Vec::new();
    let mut k: usize = 0;
    while k < data.len()
        invariant
            k <= data.len(),
            result@ == data@.take(k as int),
        decreases data.len() - k,
    {
        result.push(data[k]);
        k = k + 1;
        assert(result@ =~= data@.take(k as int));
    }
    assert(data@.take(data.len() as int) =~= data@);
    let n = data.len();
    let mut current: usize = data_map.len();
    while current > 0
        invariant
            files == pairs_view(data_map@),
            n == data@.len(),
            result@.len() == n,
            current <= data_map@.len(),
            entries_fit(files, n as int),
            entries_fit(pairs_view(space_map@), n as int),
            goal == move_files((result@, pairs_view(space_map@)), files, current - 1),
        decreases current,
    {
        let i = current - 1;
        let (data_index, total_data_blocks) = data_map[i];
        assert(files[i as int] == (data_index as int, total_data_blocks as int));
        let ghost sp = pairs_view(space_map@);
        let ghost before = result@;
        let mut j: usize = 0;
        let mut found = false;
        proof {
            lemma_find_space(sp, data_index as int, total_data_blocks as int, 0);
        }
        while !found && j < space_map.len()
            invariant
                sp == pairs_view(space_map@),
                j <= space_map@.len(),
                !found ==> find_space(sp, data_index as int, total_data_blocks as int, 0) == find_space(sp, data_index as int, total_data_blocks as int, j as int),
                found ==> j < space_map@.len() && find_space(sp, data_index as int, total_data_blocks as int, 0) == j as int,
            decreases space_map@.len() - j, if found { 0int } else { 1int },
        {
            let (space_index, total_space_blocks) = space_map[j];
            assert(sp[j as int] == (space_index as int, total_space_blocks as int));
            if total_data_blocks <= total_space_blocks {
                found = true;
            } else if space_index < data_index {
                j = j + 1;
            } else {
                j = space_map.len() + 0;
                assert(find_space(sp, data_index as int, total_data_blocks as int, 0) == -1);
                proof {
                    assert(j as int >= sp.len());
                }
            }
        }
        if found {
            let (space_index, total_space_blocks) = space_map[j];
            assert(sp[j as int] == (space_index as int, total_space_blocks as int));
            assert(0 <= sp[j as int].0 && sp[j as int].0 + sp[j as int].1 <= n);
            let mut t: usize = 0;
            while t < total_data_blocks
                invariant
                    t <= total_data_blocks <= total_space_blocks,
                    space_index + total_space_blocks <= n,
                    n == result@.len(),
                    result@ == copy_into(before, data_index as int, space_index as int, t as int),
                decreases total_data_blocks - t,
            {
                if data_index < result.len() {
                    match result[data_index] {
                        DataBlock::Data(id) => {
                            result.set(space_index + t, DataBlock::Data(id));
                        },
                        DataBlock::Space => {},
                    }
                }
                t = t + 1;
            }
            let ghost copied = result@;
            assert(0 <= files[i as int].0 && files[i as int].0 + files[i as int].1 <= n);
            let mut u: usize = 0;
            while u < total_data_blocks
                invariant
                    u <= total_data_blocks,
                    data_index + total_data_blocks <= n,
                    n == result@.len(),
                    result@ == clear_range(copied, data_index as int, u as int),
                decreases total_data_blocks - u,
            {
                result.set(data_index + u, DataBlock::Space);
                u = u + 1;
            }
            if total_data_blocks == total_space_blocks {
                space_map.remove(j);
                assert(pairs_view(space_map@) =~= sp.remove(j as int));
            } else {
                space_map.set(j, (space_index + total_data_blocks, total_space_blocks - total_data_blocks));
                assert(pairs_view(space_map@) =~= sp.update(j as int, (sp[j as int].0 + total_data_blocks, sp[j as int].1 - total_data_blocks)));
            }
            assert forall|q: int| 0 <= q < pairs_view(space_map@).len() implies 0 <= (#[trigger] pairs_view(space_map@)[q]).0 && 0 <= pairs_view(space_map@)[q].1 && pairs_view(space_map@)[q].0 + pairs_view(space_map@)[q].1 <= n by {
                if total_data_blocks == total_space_blocks {
                    if q < j {
                        assert(pairs_view(space_map@)[q] == sp[q]);
                    } else {
                        assert(pairs_view(space_map@)[q] == sp[q + 1]);
                    }
                } else {
                    if q != j {
                        assert(pairs_view(space_map@)[q] == sp[q]);
                    }
                }
            }
        }
        current = i;
    }
    result
}

pub proof fn lemma_maps_fit(s: Seq<char>, k: int)
    requires
        map_fits(s),
        0 <= k <= s.len(),
    ensures
        entries_fit(maps_upto(s, k).0, blocks_upto(s, k).len() as int),
        entries_fit(maps_upto(s, k).1, blocks_upto(s, k).len() as int),
    decreases k,
{
    if k > 0 {
        lemma_maps_fit(s, k - 1);
        assert(is_digit_char(s[k - 1]));
    }
}

/// The checksum: each file block's number times its position, summed; `None`
/// where a file number is negative or the sum leaves `u64`.
pub open spec fn checksum(b: Seq<DataBlock>) -> Option<int>
    decreases b.len(),
{
    if b.len() == 0 {
        Some(0)
    } else {
        match checksum(b.drop_last()) {
            Some(t) => match b.last() {
                DataBlock::Data(id) => if id < 0 || t + id * (b.len() - 1) > u64::MAX {
                    None
                } else {
                    Some(t + id * (b.len() - 1))
                },
                DataBlock::Space => Some(t),
            },
            None => None,
        }
    }
}

pub proof fn lemma_checksum_stops(b: Seq<DataBlock>, i: int, j: int)
    requires
        1 <= i <= j <= b.len(),
        checksum(b.take(i)) is None,
    ensures
        checksum(b.take(j)) is None,
    decreases j - i,
{
    if j > i {
        lemma_checksum_stops(b, i, j - 1);
        assert(b.take(j).drop_last() =~= b.take(j - 1));
    }
}

pub fn check_sum(data: &Vec<DataBlock>) -> (r: Option<u64>)
    ensures
        match r {
            Some(v) => checksum(data@) == Some(v as int),
            None => checksum(data@) is None,
        },
{
    let ghost b = data@;
    let mut total: u64 = 0;
    let mut index: usize = 0;
    while index < data.len()
        invariant
            b == data@,
            index <= data.len(),
            checksum(b.take(index as int)) == Some(total as int),
        decreases data.len() - index,
    {
        assert(b.take(index + 1).drop_last() =~= b.take(index as int));
        assert(b.take(index + 1).last() == b[index as int]);
        match data[index] {
            DataBlock::Data(id) => {
                if id < 0 {
                    proof {
                        lemma_checksum_stops(b, index + 1, b.len() as int);
                        assert(b.take(b.len() as int) =~= b);
                    }
                    return None;
                }
                assert((id as u128) * (index as u128) <= 0x8000_0000 * 0x1_0000_0000_0000_0000) by (nonlinear_arith)
                    requires
                        0 <= id <= 0x7fff_ffff,
                        index <= 0xffff_ffff_ffff_ffff,
                ;
                let product = (id as u128) * (index as u128);
                if (total as u128) + product > u64::MAX as u128 {
                    proof {
                        lemma_checksum_stops(b, index + 1, b.len() as int);
                        assert(b.take(b.len() as int) =~= b);
                    }
                    return None;
                }
                total = total + product as u64;
            },
            DataBlock::Space => {},
        }
        index = index + 1;
    }
    assert(b.take(data.len() as int) =~= b);
    Some(total)
}

pub open spec fn disk_map(g: Seq<Seq<char>>) -> Seq<char> {
    g[0]
}

/// The checksum once file blocks are moved one block at a time.
pub open spec fn part_one_answer(g: Seq<Seq<char>>) -> Option<int> {
    if g.len() >= 1 && map_fits(g[0]) {
        checksum(compacted(blocks_upto(g[0], g[0].len() as int)))
    } else {
        None
    }
}

/// The checksum once whole files are moved.
pub open spec fn part_two_answer(g: Seq<Seq<char>>) -> Option<int> {
    if g.len() >= 1 && map_fits(g[0]) {
        let maps = maps_upto(g[0], g[0].len() as int);
        checksum(move_files((blocks_upto(g[0], g[0].len() as int), maps.1), maps.0, maps.0.len() - 1).0)
    } else {
        None
    }
}

pub struct Day09 {}

impl Day09 {
    pub fn part_01(lines: &Vec<&str>) -> (r: Option<u64>)
        ensures
            match r {
                Some(v) => part_one_answer(lines_view(lines@)) == Some(v as int),
                None => part_one_answer(lines_view(lines@)) is None,
            },
    {
        proof {
            if lines@.len() >= 1 {
                assert(lines_view(lines@)[0] == lines@[0]@);
            }
        }
        let data = match parse_input(lines) {
            Some(d) => d,
            None => {
                return None;
            },
        };
        let processed_data = process_data(&data);
        check_sum(&processed_data)
    }

    pub fn part_02(lines: &Vec<&str>) -> (r: Option<u64>)
        ensures
            match r {
                Some(v) => part_two_answer(lines_view(lines@)) == Some(v as int),
                None => part_two_answer(lines_view(lines@)) is None,
            },
    {
        proof {
            if lines@.len() >= 1 {
                assert(lines_view(lines@)[0] == lines@[0]@);
            }
        }
        let (data, data_map, space_map) = match parse_input_for_mapping_data(lines) {
            Some(p) => p,
            None => {
                return None;
            },
        };
        proof {
            lemma_maps_fit(lines@[0]@, lines@[0]@.len() as int);
        }
        let processed_data = process_data_with_mapping_data(&data, data_map, space_map);
        check_sum(&processed_data)
    }

    /// Solves both parts on the text of a puzzle input, with the time each
    /// took; `None` where either part has no answer.
    pub fn run(input: &str) -> (r: Option<(String, String, String, u128, u128)>)
        ensures
            r is Some <==> part_one_answer(lines_spec(input@)) is Some && part_two_answer(lines_spec(input@)) is Some,
            r matches Some(t) ==> t.0@ == "Day_09"@ && t.1@ == decimal_of(part_one_answer(lines_spec(input@))->Some_0)
                && t.2@ == decimal_of(part_two_answer(lines_spec(input@))->Some_0),
    {
        let lines = split_lines(input);
        let start_1 = start_clock();
        let result_1 = Day09::part_01(&lines);
        let time_calculation_1 = elapsed_since(&start_1);
        let start_2 = start_clock();
        let result_2 = Day09::part_02(&lines);
        let time_calculation_2 = elapsed_since(&start_2);
        match (result_1, result_2) {
            (Some(a), Some(b)) => Some(
                (
                    "Day_09".to_owned(),
                    decimal_u128(a as u128),
                    decimal_u128(b as u128),
                    nanos_of(&time_calculation_1),
                    nanos_of(&time_calculation_2),
                ),
            ),
            _ => None,
        }
    }
}

} // verus!
