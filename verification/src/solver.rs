//! The backtracking search engine: voxel grid state, placement and undo,
//! validity checking, the necessary-frontier-cell selector, the recursive
//! depth-first search, and the per-shape first-level fan-out.

use vstd::prelude::*;
use crate::data_structs::{Block, ProblemParams, Solution, Vec3, block_vol, spec_rotations};
use crate::data_structs::{lemma_rotations_preserve_volume, canonical_block, canon_block,
    canon_count, canon_count_prefix, lemma_canon_count_absent};
use crate::model::{
    container_vol, in_bounds, pos_index, covers_index, placement_in_bounds,
    cell_x, cell_y, cell_z, cell_index, can_place, necessary_pos, scan_lt,
    catalog_wf, search_inv, complete_packing, grid_matches_log,
    count_nonzero, sum_counts, remaining_vol, remaining_vol_prefix,
    placed_vol, placed_vol_prefix, index_written,
    lemma_pos_index_encode,
    lemma_cell_decode, lemma_cell_encode, lemma_cell_index_props,
    lemma_covered_index_is_cell, lemma_cell_index_injective,
    lemma_count_nonzero_update, lemma_count_nonzero_all_zero,
    lemma_count_nonzero_full,
    lemma_sum_counts_update, lemma_sum_counts_zero, lemma_sum_counts_prefix_nonneg,
    lemma_sum_counts_lower, lemma_place_preserves_inv,
    lemma_remaining_vol_update, lemma_remaining_vol_all_zero, lemma_remaining_vol_prefix_monotone,
    tileable, ext_wf, ext_anchors_shape, ext_anchors_rot,
    lemma_ext_anchor_at_first_empty, lemma_ext_place_step, lemma_ext_needs_empty_cell,
    lemma_uses_count_pos, lemma_sum_counts_all_zero,
    index_x, index_y, index_z, lemma_index_decode, lemma_pos_index_injective,
    lemma_sum_counts_insert,
};

verus! {

/// The row-major flat index of an in-bounds coordinate: x + y*sx + z*sx*sy.
pub fn get_pos_index(pos: &Vec3, size: &Vec3) -> (r: usize)
    requires
        in_bounds(*pos, *size),
        container_vol(*size) <= usize::MAX,
    ensures
        r == pos_index(*pos, *size),
        r < container_vol(*size),
{
    proof {
        lemma_pos_index_encode(*pos, *size);
    }
    pos.0 + (pos.1 * size.0) + (pos.2 * size.0 * size.1)
}

/// Whether the coordinate lies outside the container.
pub fn is_out_of_bounds(pos: &Vec3, size: &Vec3) -> (r: bool)
    ensures
        r == !in_bounds(*pos, *size),
{
    pos.0 >= size.0 || pos.1 >= size.1 || pos.2 >= size.2
}

/// Lists the coordinates of every unit cell covered by `block` anchored at
/// `pos`, x-major with z varying fastest.
pub fn block_to_pos_vec3(pos: &Vec3, block: &Block) -> (r: Vec<Vec3>)
    requires
        block.0 >= 1,
        block.1 >= 1,
        block.2 >= 1,
        pos.0 + block.0 <= usize::MAX,
        pos.1 + block.1 <= usize::MAX,
        pos.2 + block.2 <= usize::MAX,
    ensures
        r@.len() == block_vol(*block),
        forall|m: int|
            0 <= m < r@.len()
                ==> (#[trigger] r@[m]).0 == cell_x(*pos, *block, m)
                    && r@[m].1 == cell_y(*pos, *block, m)
                    && r@[m].2 == cell_z(*pos, *block, m),
{
    let ghost gb12: int = block.1 as int * block.2 as int;
    let mut pos_vec: Vec<Vec3> = Vec::new();
    let mut x = pos.0;
    while x < pos.0 + block.0
        invariant
            pos.0 <= x <= pos.0 + block.0,
            pos.0 + block.0 <= usize::MAX,
            pos.1 + block.1 <= usize::MAX,
            pos.2 + block.2 <= usize::MAX,
            block.1 >= 1,
            block.2 >= 1,
            pos_vec@.len() == (x - pos.0) * gb12,
            gb12 == block.1 as int * block.2 as int,
            forall|m: int|
                0 <= m < pos_vec@.len()
                    ==> (#[trigger] pos_vec@[m]).0 == cell_x(*pos, *block, m)
                        && pos_vec@[m].1 == cell_y(*pos, *block, m)
                        && pos_vec@[m].2 == cell_z(*pos, *block, m),
        decreases pos.0 + block.0 - x,
    {
        let mut y = pos.1;
        while y < pos.1 + block.1
            invariant
                pos.0 <= x < pos.0 + block.0,
                pos.1 <= y <= pos.1 + block.1,
                pos.0 + block.0 <= usize::MAX,
                pos.1 + block.1 <= usize::MAX,
                pos.2 + block.2 <= usize::MAX,
                block.1 >= 1,
                block.2 >= 1,
                pos_vec@.len() == (x - pos.0) * gb12 + (y - pos.1) * (block.2 as int),
                gb12 == block.1 as int * block.2 as int,
                forall|m: int|
                    0 <= m < pos_vec@.len()
                        ==> (#[trigger] pos_vec@[m]).0 == cell_x(*pos, *block, m)
                            && pos_vec@[m].1 == cell_y(*pos, *block, m)
                            && pos_vec@[m].2 == cell_z(*pos, *block, m),
            decreases pos.1 + block.1 - y,
        {
            let mut z = pos.2;
            while z < pos.2 + block.2
                invariant
                    pos.0 <= x < pos.0 + block.0,
                    pos.1 <= y < pos.1 + block.1,
                    pos.2 <= z <= pos.2 + block.2,
                    pos.0 + block.0 <= usize::MAX,
                    pos.1 + block.1 <= usize::MAX,
                    pos.2 + block.2 <= usize::MAX,
                    block.1 >= 1,
                    block.2 >= 1,
                    pos_vec@.len() == (x - pos.0) * gb12 + (y - pos.1) * (block.2 as int) + (z - pos.2),
                    gb12 == block.1 as int * block.2 as int,
                    forall|m: int|
                        0 <= m < pos_vec@.len()
                            ==> (#[trigger] pos_vec@[m]).0 == cell_x(*pos, *block, m)
                                && pos_vec@[m].1 == cell_y(*pos, *block, m)
                                && pos_vec@[m].2 == cell_z(*pos, *block, m),
                decreases pos.2 + block.2 - z,
            {
                proof {
                    lemma_cell_encode(*pos, *block, x as int, y as int, z as int);
                }
                pos_vec.push(Vec3(x, y, z));
                z = z + 1;
            }
            proof {
                assert((y - pos.1) * (block.2 as int) + block.2 == (y + 1 - pos.1) * (block.2 as int))
                    by (nonlinear_arith);
            }
            y = y + 1;
        }
        proof {
            assert((x - pos.0) * gb12 + block.1 as int * block.2 as int == (x + 1 - pos.0) * gb12)
                by (nonlinear_arith)
                requires gb12 == block.1 as int * block.2 as int;
        }
        x = x + 1;
    }
    proof {
        assert((block.0 as int) * gb12 == block_vol(*block)) by (nonlinear_arith)
            requires gb12 == block.1 as int * block.2 as int;
    }
    pos_vec
}

/// Lists the flat grid indices of every unit cell covered by `block` anchored
/// at `pos`.
pub fn block_to_pos_indices(pos: &Vec3, block: &Block, size: &Vec3) -> (r: Vec<usize>)
    requires
        placement_in_bounds(*pos, *block, *size),
        container_vol(*size) <= usize::MAX,
    ensures
        r@.len() == block_vol(*block),
        forall|m: int| 0 <= m < r@.len() ==> #[trigger] r@[m] == cell_index(*pos, *block, *size, m),
        forall|m: int| 0 <= m < r@.len() ==> #[trigger] r@[m] < container_vol(*size),
{
    let cells = block_to_pos_vec3(pos, block);
    let mut indices: Vec<usize> = Vec::new();
    let mut j: usize = 0;
    while j < cells.len()
        invariant
            j <= cells@.len(),
            cells@.len() == block_vol(*block),
            placement_in_bounds(*pos, *block, *size),
            container_vol(*size) <= usize::MAX,
            forall|m: int|
                0 <= m < cells@.len()
                    ==> (#[trigger] cells@[m]).0 == cell_x(*pos, *block, m)
                        && cells@[m].1 == cell_y(*pos, *block, m)
                        && cells@[m].2 == cell_z(*pos, *block, m),
            indices@.len() == j,
            forall|m: int| 0 <= m < j ==> #[trigger] indices@[m] == cell_index(*pos, *block, *size, m),
            forall|m: int| 0 <= m < j ==> #[trigger] indices@[m] < container_vol(*size),
        decreases cells@.len() - j,
    {
        let p = cells[j];
        proof {
            lemma_cell_decode(*pos, *block, j as int);
            lemma_cell_index_props(*pos, *block, *size, j as int);
        }
        let i = get_pos_index(&p, size);
        indices.push(i);
        j = j + 1;
    }
    indices
}

/// The fast-path feasibility test: the declared block volumes plus the one
/// reserved seed cell must equal the container volume exactly.
pub fn check_volumes(size: &Vec3, unique_blocks: &Vec<Block>, block_counter: &Vec<usize>) -> (r: bool)
    requires
        block_counter@.len() == unique_blocks@.len(),
        forall|s: int|
            0 <= s < unique_blocks@.len()
                ==> (#[trigger] unique_blocks@[s]).0 >= 1 && unique_blocks@[s].1 >= 1 && unique_blocks@[s].2 >= 1,
        size.0 >= 1,
        size.1 >= 1,
        size.2 >= 1,
        container_vol(*size) <= usize::MAX,
    ensures
        r == (1 + remaining_vol(block_counter@, unique_blocks@) == container_vol(*size)),
{
    proof {
        assert(size.0 * size.1 <= container_vol(*size)) by (nonlinear_arith)
            requires size.0 >= 1, size.1 >= 1, size.2 >= 1;
    }
    let container_volume = size.0 * size.1 * size.2;
    let mut block_vol_sum: usize = 1;
    let mut fits = true;
    let mut s: usize = 0;
    while s < unique_blocks.len()
        invariant
            s <= unique_blocks@.len(),
            block_counter@.len() == unique_blocks@.len(),
            forall|t: int|
                0 <= t < unique_blocks@.len()
                    ==> (#[trigger] unique_blocks@[t]).0 >= 1 && unique_blocks@[t].1 >= 1 && unique_blocks@[t].2 >= 1,
            fits ==> block_vol_sum == 1 + remaining_vol_prefix(block_counter@, unique_blocks@, s as int),
            !fits ==> 1 + remaining_vol_prefix(block_counter@, unique_blocks@, s as int) > usize::MAX,
        decreases unique_blocks@.len() - s,
    {
        let block = unique_blocks[s];
        let count = block_counter[s];
        let maybe_term = match count.checked_mul(block.0) {
            Some(v0) => match v0.checked_mul(block.1) {
                Some(v1) => v1.checked_mul(block.2),
                None => None,
            },
            None => None,
        };
        proof {
            let b = unique_blocks@[s as int];
            let cnt = block_counter@[s as int] as int;
            lemma_remaining_vol_prefix_monotone(block_counter@, unique_blocks@, 0, s as int);
            assert(cnt * block_vol(b) == cnt * b.0 * b.1 * b.2) by (nonlinear_arith)
                requires block_vol(b) == b.0 * b.1 * b.2;
            assert(cnt * b.0 >= 0 && cnt * b.0 * b.1 >= cnt * b.0 && cnt * b.0 * b.1 * b.2 >= cnt * b.0 * b.1)
                by (nonlinear_arith)
                requires cnt >= 0, b.0 >= 1, b.1 >= 1, b.2 >= 1;
        }
        match maybe_term {
            Some(term) => {
                match block_vol_sum.checked_add(term) {
                    Some(new_sum) => {
                        block_vol_sum = new_sum;
                    }
                    None => {
                        fits = false;
                    }
                }
            }
            None => {
                fits = false;
            }
        }
        s = s + 1;
    }
    if fits {
        block_vol_sum == container_volume
    } else {
        false
    }
}

/// Whether `block` anchored at `pos` cannot be placed: some covered cell is
/// out of the container or already occupied.
pub fn is_pos_blocked(grid: &Vec<usize>, pos: &Vec3, block: &Block, size: &Vec3) -> (r: bool)
    requires
        grid@.len() == container_vol(*size),
        container_vol(*size) <= usize::MAX,
        in_bounds(*pos, *size),
        block.0 >= 1,
        block.1 >= 1,
        block.2 >= 1,
    ensures
        r == !can_place(grid@, *pos, *block, *size),
{
    if block.0 > size.0 - pos.0 || block.1 > size.1 - pos.1 || block.2 > size.2 - pos.2 {
        return true;
    }
    let cells = block_to_pos_indices(pos, block, size);
    let mut j: usize = 0;
    while j < cells.len()
        invariant
            j <= cells@.len(),
            cells@.len() == block_vol(*block),
            placement_in_bounds(*pos, *block, *size),
            grid@.len() == container_vol(*size),
            container_vol(*size) <= usize::MAX,
            forall|m: int| 0 <= m < cells@.len() ==> #[trigger] cells@[m] == cell_index(*pos, *block, *size, m),
            forall|m: int| 0 <= m < cells@.len() ==> #[trigger] cells@[m] < container_vol(*size),
            forall|m: int| 0 <= m < j ==> grid@[#[trigger] cells@[m] as int] == 0,
        decreases cells@.len() - j,
    {
        let ci = cells[j];
        if grid[ci] > 0 {
            proof {
                lemma_cell_index_props(*pos, *block, *size, j as int);
            }
            return true;
        }
        j = j + 1;
    }
    proof {
        assert forall|i: int|
            0 <= i < grid@.len() && #[trigger] covers_index(*pos, *block, *size, i) implies grid@[i] == 0 by {
            lemma_covered_index_is_cell(*pos, *block, *size, i);
            let m = choose|m: int| 0 <= m < block_vol(*block) && cell_index(*pos, *block, *size, m) == i;
            assert(cells@[m] == i);
        }
    }
    false
}

/// Whether `pos` is the kind of cell the search is obligated to fill next:
/// empty, with every in-container unit predecessor along an axis already
/// filled. Out-of-container positions never qualify.
pub fn is_necessary_pos(grid: &Vec<usize>, pos: &Vec3, size: &Vec3) -> (r: bool)
    requires
        grid@.len() == container_vol(*size),
        container_vol(*size) <= usize::MAX,
    ensures
        r == necessary_pos(grid@, *pos, *size),
{
    if is_out_of_bounds(pos, size) || grid[get_pos_index(pos, size)] > 0 {
        return false;
    }
    if pos.0 > 0 {
        let left_pos = Vec3(pos.0 - 1, pos.1, pos.2);
        if !is_out_of_bounds(&left_pos, size) && grid[get_pos_index(&left_pos, size)] == 0 {
            return false;
        }
    }
    if pos.1 > 0 {
        let down_pos = Vec3(pos.0, pos.1 - 1, pos.2);
        if !is_out_of_bounds(&down_pos, size) && grid[get_pos_index(&down_pos, size)] == 0 {
            return false;
        }
    }
    if pos.2 > 0 {
        let back_pos = Vec3(pos.0, pos.1, pos.2 - 1);
        if !is_out_of_bounds(&back_pos, size) && grid[get_pos_index(&back_pos, size)] == 0 {
            return false;
        }
    }
    true
}

/// Scans the container in the fixed order (x outer, y middle, z inner) and
/// returns the first cell the search must fill, or `None` when no cell
/// qualifies.
pub fn scan_for_necessary(grid: &Vec<usize>, size: &Vec3) -> (r: Option<Vec3>)
    requires
        grid@.len() == container_vol(*size),
        container_vol(*size) <= usize::MAX,
    ensures
        r matches Some(p) ==> necessary_pos(grid@, p, *size)
            && (forall|q: Vec3| scan_lt(q, p) ==> !(#[trigger] necessary_pos(grid@, q, *size)))
            && (forall|q: Vec3| in_bounds(q, *size) && scan_lt(q, p)
                ==> grid@[#[trigger] pos_index(q, *size)] != 0),
        r is None ==> forall|q: Vec3| !(#[trigger] necessary_pos(grid@, q, *size)),
        r is None ==> forall|q: Vec3| in_bounds(q, *size) ==> grid@[#[trigger] pos_index(q, *size)] != 0,
{
    let mut x: usize = 0;
    while x < size.0
        invariant
            x <= size.0,
            grid@.len() == container_vol(*size),
            container_vol(*size) <= usize::MAX,
            forall|q: Vec3| scan_lt(q, Vec3(x, 0, 0)) ==> !(#[trigger] necessary_pos(grid@, q, *size)),
            forall|q: Vec3|
                in_bounds(q, *size) && scan_lt(q, Vec3(x, 0, 0))
                    ==> grid@[#[trigger] pos_index(q, *size)] != 0,
        decreases size.0 - x,
    {
        let mut y: usize = 0;
        while y < size.1
            invariant
                x < size.0,
                y <= size.1,
                grid@.len() == container_vol(*size),
                container_vol(*size) <= usize::MAX,
                forall|q: Vec3| scan_lt(q, Vec3(x, y, 0)) ==> !(#[trigger] necessary_pos(grid@, q, *size)),
                forall|q: Vec3|
                    in_bounds(q, *size) && scan_lt(q, Vec3(x, y, 0))
                        ==> grid@[#[trigger] pos_index(q, *size)] != 0,
            decreases size.1 - y,
        {
            let mut z: usize = 0;
            while z < size.2
                invariant
                    x < size.0,
                    y < size.1,
                    z <= size.2,
                    grid@.len() == container_vol(*size),
                    container_vol(*size) <= usize::MAX,
                    forall|q: Vec3| scan_lt(q, Vec3(x, y, z)) ==> !(#[trigger] necessary_pos(grid@, q, *size)),
                    forall|q: Vec3|
                        in_bounds(q, *size) && scan_lt(q, Vec3(x, y, z))
                            ==> grid@[#[trigger] pos_index(q, *size)] != 0,
                decreases size.2 - z,
            {
                let pos = Vec3(x, y, z);
                if is_necessary_pos(grid, &pos, size) {
                    return Some(pos);
                }
                proof {
                    let p = Vec3(x, y, z);
                    if grid@[pos_index(p, *size)] == 0 {
                        if p.0 > 0 {
                            let q = Vec3((p.0 - 1) as usize, p.1, p.2);
                            assert(in_bounds(q, *size) && scan_lt(q, p));
                        }
                        if p.1 > 0 {
                            let q = Vec3(p.0, (p.1 - 1) as usize, p.2);
                            assert(in_bounds(q, *size) && scan_lt(q, p));
                        }
                        if p.2 > 0 {
                            let q = Vec3(p.0, p.1, (p.2 - 1) as usize);
                            assert(in_bounds(q, *size) && scan_lt(q, p));
                        }
                        assert(necessary_pos(grid@, p, *size));
                        assert(false);
                    }
                    assert forall|q: Vec3| scan_lt(q, Vec3(x, y, (z + 1) as usize))
                        implies !(necessary_pos(grid@, q, *size)) by {
                        if !scan_lt(q, Vec3(x, y, z)) {
                            assert(q == Vec3(x, y, z));
                        }
                    }
                    assert forall|q: Vec3| in_bounds(q, *size) && scan_lt(q, Vec3(x, y, (z + 1) as usize))
                        implies grid@[pos_index(q, *size)] != 0 by {
                        if !scan_lt(q, Vec3(x, y, z)) {
                            assert(q == Vec3(x, y, z));
                        }
                    }
                }
                z = z + 1;
            }
            proof {
                assert forall|q: Vec3| scan_lt(q, Vec3(x, (y + 1) as usize, 0))
                    implies !(necessary_pos(grid@, q, *size)) by {
                    if !scan_lt(q, Vec3(x, y, 0)) {
                        assert(q.0 == x && q.1 == y);
                        if necessary_pos(grid@, q, *size) {
                            assert(q.2 < size.2);
                            assert(scan_lt(q, Vec3(x, y, z)));
                        }
                    }
                }
                assert forall|q: Vec3| in_bounds(q, *size) && scan_lt(q, Vec3(x, (y + 1) as usize, 0))
                    implies grid@[pos_index(q, *size)] != 0 by {
                    if !scan_lt(q, Vec3(x, y, 0)) {
                        assert(q.0 == x && q.1 == y && q.2 < size.2);
                        assert(scan_lt(q, Vec3(x, y, z)));
                    }
                }
            }
            y = y + 1;
        }
        proof {
            assert forall|q: Vec3| scan_lt(q, Vec3((x + 1) as usize, 0, 0))
                implies !(necessary_pos(grid@, q, *size)) by {
                if !scan_lt(q, Vec3(x, 0, 0)) {
                    assert(q.0 == x);
                    if necessary_pos(grid@, q, *size) {
                        assert(q.1 < size.1);
                        assert(scan_lt(q, Vec3(x, y, 0)));
                    }
                }
            }
            assert forall|q: Vec3| in_bounds(q, *size) && scan_lt(q, Vec3((x + 1) as usize, 0, 0))
                implies grid@[pos_index(q, *size)] != 0 by {
                if !scan_lt(q, Vec3(x, 0, 0)) {
                    assert(q.0 == x && q.1 < size.1);
                    assert(scan_lt(q, Vec3(x, y, 0)));
                }
            }
        }
        x = x + 1;
    }
    proof {
        assert forall|q: Vec3| !(necessary_pos(grid@, q, *size)) by {
            if necessary_pos(grid@, q, *size) {
                assert(scan_lt(q, Vec3(size.0, 0, 0)));
            }
        }
        assert forall|q: Vec3| in_bounds(q, *size)
            implies grid@[pos_index(q, *size)] != 0 by {
            assert(scan_lt(q, Vec3(size.0, 0, 0)));
        }
    }
    None
}

/// Commits a placement: bumps the running placed count, appends the log entry,
/// and labels every covered cell with the new count.
pub fn do_place(
    grid: &mut Vec<usize>,
    pos: &Vec3,
    block: &Block,
    size: &Vec3,
    block_count: &mut usize,
    placed_blocks: &mut Vec<(Block, Vec3)>,
)
    requires
        old(grid)@.len() == container_vol(*size),
        container_vol(*size) <= usize::MAX,
        can_place(old(grid)@, *pos, *block, *size),
        *old(block_count) < usize::MAX,
    ensures
        *final(block_count) == *old(block_count) + 1,
        final(placed_blocks)@ == old(placed_blocks)@.push((*block, *pos)),
        final(grid)@.len() == old(grid)@.len(),
        forall|i: int|
            0 <= i < final(grid)@.len()
                ==> final(grid)@[i] == (if covers_index(*pos, *block, *size, i) {
                    (*old(block_count) + 1) as usize
                } else {
                    old(grid)@[i]
                }),
        count_nonzero(final(grid)@) == count_nonzero(old(grid)@) + block_vol(*block),
{
    *block_count = *block_count + 1;
    placed_blocks.push((*block, *pos));
    let label = *block_count;
    let cells = block_to_pos_indices(pos, block, size);
    let mut j: usize = 0;
    while j < cells.len()
        invariant
            j <= cells@.len(),
            cells@.len() == block_vol(*block),
            placement_in_bounds(*pos, *block, *size),
            grid@.len() == container_vol(*size),
            old(grid)@.len() == container_vol(*size),
            container_vol(*size) <= usize::MAX,
            label != 0,
            forall|m: int| 0 <= m < cells@.len() ==> #[trigger] cells@[m] == cell_index(*pos, *block, *size, m),
            forall|m: int| 0 <= m < cells@.len() ==> #[trigger] cells@[m] < container_vol(*size),
            forall|i: int|
                0 <= i < old(grid)@.len() && covers_index(*pos, *block, *size, i) ==> old(grid)@[i] == 0,
            forall|i: int|
                0 <= i < grid@.len()
                    ==> grid@[i] == (if index_written(cells@, j as int, i as int) {
                        label
                    } else {
                        old(grid)@[i]
                    }),
            count_nonzero(grid@) == count_nonzero(old(grid)@) + j,
        decreases cells@.len() - j,
    {
        let ci = cells[j];
        proof {
            lemma_cell_index_props(*pos, *block, *size, j as int);
            assert forall|m: int| 0 <= m < j implies cells@[m] != cells@[j as int] by {
                lemma_cell_index_injective(*pos, *block, *size, m, j as int);
            }
            assert(!index_written(cells@, j as int, ci as int));
            assert(grid@[ci as int] == 0);
            lemma_count_nonzero_update(grid@, ci as int, label);
        }
        grid[ci] = label;
        proof {
            assert forall|i: int|
                0 <= i < grid@.len()
                    implies grid@[i] == (if index_written(cells@, j + 1 as int, i as int) {
                    label
                } else {
                    old(grid)@[i]
                }) by {
                if index_written(cells@, j + 1 as int, i) {
                    if i != ci as int {
                        let m = choose|m: int| 0 <= m < j + 1 && cells@[m] == i;
                        assert(0 <= m < j && cells@[m] == i);
                        assert(index_written(cells@, j as int, i));
                    }
                } else {
                    assert(!index_written(cells@, j as int, i));
                }
            }
        }
        j = j + 1;
    }
    proof {
        assert forall|i: int|
            0 <= i < grid@.len()
                implies grid@[i] == (if covers_index(*pos, *block, *size, i) {
                label
            } else {
                old(grid)@[i]
            }) by {
            if covers_index(*pos, *block, *size, i) {
                lemma_covered_index_is_cell(*pos, *block, *size, i);
                let m = choose|m: int| 0 <= m < block_vol(*block) && cell_index(*pos, *block, *size, m) == i;
                assert(cells@[m] == i);
                assert(index_written(cells@, cells@.len() as int, i));
            } else {
                if index_written(cells@, cells@.len() as int, i) {
                    let m = choose|m: int| 0 <= m < cells@.len() && cells@[m] == i;
                    lemma_cell_index_props(*pos, *block, *size, m);
                }
            }
        }
    }
}

/// Reverts the most recent placement exactly: decrements the running count,
/// pops the log, and clears every covered cell back to empty.
pub fn undo_place(
    grid: &mut Vec<usize>,
    pos: &Vec3,
    block: &Block,
    size: &Vec3,
    block_count: &mut usize,
    placed_blocks: &mut Vec<(Block, Vec3)>,
)
    requires
        old(grid)@.len() == container_vol(*size),
        container_vol(*size) <= usize::MAX,
        placement_in_bounds(*pos, *block, *size),
        forall|i: int|
            0 <= i < old(grid)@.len() && covers_index(*pos, *block, *size, i) ==> old(grid)@[i] != 0,
        *old(block_count) >= 1,
        old(placed_blocks)@.len() >= 1,
    ensures
        *final(block_count) == *old(block_count) - 1,
        final(placed_blocks)@ == old(placed_blocks)@.drop_last(),
        final(grid)@.len() == old(grid)@.len(),
        forall|i: int|
            0 <= i < final(grid)@.len()
                ==> final(grid)@[i] == (if covers_index(*pos, *block, *size, i) {
                    0usize
                } else {
                    old(grid)@[i]
                }),
        count_nonzero(final(grid)@) == count_nonzero(old(grid)@) - block_vol(*block),
{
    *block_count = *block_count - 1;
    let popped = placed_blocks.pop();
    let cells = block_to_pos_indices(pos, block, size);
    let mut j: usize = 0;
    while j < cells.len()
        invariant
            j <= cells@.len(),
            cells@.len() == block_vol(*block),
            placement_in_bounds(*pos, *block, *size),
            grid@.len() == container_vol(*size),
            old(grid)@.len() == container_vol(*size),
            container_vol(*size) <= usize::MAX,
            forall|m: int| 0 <= m < cells@.len() ==> #[trigger] cells@[m] == cell_index(*pos, *block, *size, m),
            forall|m: int| 0 <= m < cells@.len() ==> #[trigger] cells@[m] < container_vol(*size),
            forall|i: int|
                0 <= i < old(grid)@.len() && covers_index(*pos, *block, *size, i) ==> old(grid)@[i] != 0,
            forall|i: int|
                0 <= i < grid@.len()
                    ==> grid@[i] == (if index_written(cells@, j as int, i as int) {
                        0usize
                    } else {
                        old(grid)@[i]
                    }),
            count_nonzero(grid@) == count_nonzero(old(grid)@) - j,
        decreases cells@.len() - j,
    {
        let ci = cells[j];
        proof {
            lemma_cell_index_props(*pos, *block, *size, j as int);
            assert forall|m: int| 0 <= m < j implies cells@[m] != cells@[j as int] by {
                lemma_cell_index_injective(*pos, *block, *size, m, j as int);
            }
            assert(!index_written(cells@, j as int, ci as int));
            assert(grid@[ci as int] == old(grid)@[ci as int]);
            assert(grid@[ci as int] != 0);
            lemma_count_nonzero_update(grid@, ci as int, 0usize);
        }
        grid[ci] = 0;
        proof {
            assert forall|i: int|
                0 <= i < grid@.len()
                    implies grid@[i] == (if index_written(cells@, j + 1 as int, i as int) {
                    0usize
                } else {
                    old(grid)@[i]
                }) by {
                if index_written(cells@, j + 1 as int, i) {
                    if i != ci as int {
                        let m = choose|m: int| 0 <= m < j + 1 && cells@[m] == i;
                        assert(0 <= m < j && cells@[m] == i);
                        assert(index_written(cells@, j as int, i));
                    }
                } else {
                    assert(!index_written(cells@, j as int, i));
                }
            }
        }
        j = j + 1;
    }
    proof {
        assert forall|i: int|
            0 <= i < grid@.len()
                implies grid@[i] == (if covers_index(*pos, *block, *size, i) {
                0usize
            } else {
                old(grid)@[i]
            }) by {
            if covers_index(*pos, *block, *size, i) {
                lemma_covered_index_is_cell(*pos, *block, *size, i);
                let m = choose|m: int| 0 <= m < block_vol(*block) && cell_index(*pos, *block, *size, m) == i;
                assert(cells@[m] == i);
                assert(index_written(cells@, cells@.len() as int, i));
            } else {
                if index_written(cells@, cells@.len() as int, i) {
                    let m = choose|m: int| 0 <= m < cells@.len() && cells@[m] == i;
                    lemma_cell_index_props(*pos, *block, *size, m);
                }
            }
        }
    }
}

/// The recursive backtracking driver. At the current frontier cell it tries
/// every catalog shape with instances left, in priority order, and every
/// rotation of it, placing, recursing and undoing. Reports `true` as soon as
/// the target placement count is reached; on `false` the entire state is
/// restored exactly. Success is owed: whenever the empty region is exactly
/// tileable by the remaining block multiset (and at least one instance
/// remains to be placed), the search finds a packing.
pub fn dfs(
    grid: &mut Vec<usize>,
    size: &Vec3,
    block_counter: &mut Vec<usize>,
    placed_block_count: &mut usize,
    block_count: usize,
    unique_blocks: &Vec<Block>,
    block_rotations: &Vec<Vec<Block>>,
    placed_blocks: &mut Vec<(Block, Vec3)>,
) -> (r: bool)
    requires
        catalog_wf(unique_blocks@, block_rotations@, old(block_counter)@),
        search_inv(old(grid)@, *size, old(block_counter)@, *old(placed_block_count) as int,
            block_count as int, unique_blocks@, old(placed_blocks)@),
        container_vol(*size) <= usize::MAX,
        block_count < usize::MAX,
    ensures
        !r ==> final(grid)@ == old(grid)@,
        !r ==> final(block_counter)@ == old(block_counter)@,
        !r ==> *final(placed_block_count) == *old(placed_block_count),
        !r ==> final(placed_blocks)@ == old(placed_blocks)@,
        r ==> search_inv(final(grid)@, *size, final(block_counter)@, *final(placed_block_count) as int,
            block_count as int, unique_blocks@, final(placed_blocks)@),
        r ==> *final(placed_block_count) == block_count + 1,
        r ==> placed_vol(final(placed_blocks)@) + remaining_vol(final(block_counter)@, unique_blocks@)
            == placed_vol(old(placed_blocks)@) + remaining_vol(old(block_counter)@, unique_blocks@),
        r ==> final(placed_blocks)@.len() >= old(placed_blocks)@.len(),
        r ==> forall|k: int|
            0 <= k < old(placed_blocks)@.len() ==> final(placed_blocks)@[k] == old(placed_blocks)@[k],
        r ==> final(block_counter)@.len() == old(block_counter)@.len(),
        r ==> forall|s2: int|
            0 <= s2 < old(block_counter)@.len()
                ==> #[trigger] final(block_counter)@[s2] <= old(block_counter)@[s2],
        (sum_counts(old(block_counter)@) >= 1
            && tileable(old(grid)@, *size, old(block_counter)@, unique_blocks@)) ==> r,
    decreases sum_counts(old(block_counter)@),
{
    let maybe_pos = scan_for_necessary(grid, size);
    if let Some(pos) = maybe_pos {
        let mut s: usize = 0;
        while s < unique_blocks.len()
            invariant
                s <= unique_blocks@.len(),
                grid@ == old(grid)@,
                block_counter@ == old(block_counter)@,
                *placed_block_count == *old(placed_block_count),
                placed_blocks@ == old(placed_blocks)@,
                catalog_wf(unique_blocks@, block_rotations@, old(block_counter)@),
                search_inv(old(grid)@, *size, old(block_counter)@, *old(placed_block_count) as int,
                    block_count as int, unique_blocks@, old(placed_blocks)@),
                container_vol(*size) <= usize::MAX,
                block_count < usize::MAX,
                necessary_pos(old(grid)@, pos, *size),
                forall|q: Vec3|
                    in_bounds(q, *size) && scan_lt(q, pos)
                        ==> old(grid)@[#[trigger] pos_index(q, *size)] != 0,
                forall|s2: int|
                    0 <= s2 < s
                        ==> !(#[trigger] ext_anchors_shape(old(grid)@, *size, old(block_counter)@,
                            unique_blocks@, s2, pos)),
            decreases unique_blocks@.len() - s,
        {
            let count_s = block_counter[s];
            if count_s > 0 {
                block_counter[s] = count_s - 1;
                proof {
                    lemma_sum_counts_update(old(block_counter)@, s as int, (count_s - 1) as usize);
                    lemma_remaining_vol_update(old(block_counter)@, unique_blocks@, s as int,
                        (count_s - 1) as usize);
                    lemma_sum_counts_lower(old(block_counter)@, s as int,
                        old(block_counter)@.len() as int);
                    lemma_sum_counts_prefix_nonneg(block_counter@, block_counter@.len() as int);
                    assert((count_s - 1) * block_vol(unique_blocks@[s as int])
                        == count_s * block_vol(unique_blocks@[s as int])
                            - block_vol(unique_blocks@[s as int])) by (nonlinear_arith);
                }
                let ghost counts1 = block_counter@;
                let rots = &block_rotations[s];
                let mut t: usize = 0;
                while t < rots.len()
                    invariant
                        t <= rots@.len(),
                        s < unique_blocks@.len(),
                        grid@ == old(grid)@,
                        block_counter@ == counts1,
                        *placed_block_count == *old(placed_block_count),
                        placed_blocks@ == old(placed_blocks)@,
                        counts1 == old(block_counter)@.update(s as int, (count_s - 1) as usize),
                        old(block_counter)@[s as int] == count_s,
                        count_s >= 1,
                        sum_counts(counts1) == sum_counts(old(block_counter)@) - 1,
                        sum_counts(counts1) >= 0,
                        sum_counts(old(block_counter)@) >= count_s,
                        remaining_vol(counts1, unique_blocks@)
                            == remaining_vol(old(block_counter)@, unique_blocks@)
                                - block_vol(unique_blocks@[s as int]),
                        catalog_wf(unique_blocks@, block_rotations@, old(block_counter)@),
                        search_inv(old(grid)@, *size, old(block_counter)@,
                            *old(placed_block_count) as int, block_count as int, unique_blocks@,
                            old(placed_blocks)@),
                        container_vol(*size) <= usize::MAX,
                        block_count < usize::MAX,
                        necessary_pos(old(grid)@, pos, *size),
                        rots@ == spec_rotations(unique_blocks@[s as int]),
                        forall|u: int|
                            0 <= u < t
                                ==> !(#[trigger] ext_anchors_rot(old(grid)@, *size,
                                    old(block_counter)@, unique_blocks@, s as int, rots@[u], pos)),
                    decreases rots@.len() - t,
                {
                    let rotation = rots[t];
                    proof {
                        lemma_rotations_preserve_volume(unique_blocks@[s as int]);
                        assert(block_vol(rotation) == block_vol(unique_blocks@[s as int]));
                    }
                    if !is_pos_blocked(grid, &pos, &rotation, size) {
                        let ghost grid0 = grid@;
                        let ghost pb0 = placed_blocks@;
                        let ghost pcount0 = *placed_block_count as int;
                        do_place(grid, &pos, &rotation, size, placed_block_count, placed_blocks);
                        proof {
                            assert(spec_rotations(unique_blocks@[s as int]).contains(rotation));
                            lemma_place_preserves_inv(grid0, grid@, *size, old(block_counter)@,
                                counts1, pcount0, block_count as int, unique_blocks@, s as int,
                                rotation, pos, pb0);
                        }
                        let ghost grid1 = grid@;
                        let ghost pb1 = placed_blocks@;
                        if *placed_block_count == block_count + 1 {
                            return true;
                        }
                        let result = dfs(grid, size, block_counter, placed_block_count, block_count,
                            unique_blocks, block_rotations, placed_blocks);
                        if result {
                            return true;
                        }
                        proof {
                            assert(grid@ == grid1);
                            assert forall|i: int|
                                0 <= i < grid1.len() && covers_index(pos, rotation, *size, i)
                                implies grid1[i] != 0 by {
                                assert(grid1[i] == pcount0 + 1);
                            }
                        }
                        undo_place(grid, &pos, &rotation, size, placed_block_count, placed_blocks);
                        proof {
                            assert forall|i: int| 0 <= i < grid@.len() implies grid@[i] == grid0[i] by {
                                if covers_index(pos, rotation, *size, i) {
                                    assert(grid0[i] == 0);
                                } else {
                                    assert(grid@[i] == grid1[i] && grid1[i] == grid0[i]);
                                }
                            }
                            assert(grid@ =~= grid0);
                            assert(placed_blocks@ =~= pb0);
                            if ext_anchors_rot(old(grid)@, *size, old(block_counter)@,
                                unique_blocks@, s as int, rotation, pos) {
                                let (ext, shapes, j): (Seq<(Block, Vec3)>, Seq<int>, int) =
                                    choose|ext: Seq<(Block, Vec3)>, shapes: Seq<int>, j: int|
                                        #![trigger ext_wf(old(grid)@, *size, old(block_counter)@, unique_blocks@, ext, shapes), shapes[j]]
                                        ext_wf(old(grid)@, *size, old(block_counter)@,
                                            unique_blocks@, ext, shapes)
                                            && 0 <= j < ext.len() && shapes[j] == s as int
                                            && ext[j] == (rotation, pos);
                                assert(ext[j].0 == rotation && ext[j].1 == pos);
                                lemma_ext_place_step(old(grid)@, grid1, *size,
                                    old(block_counter)@, counts1, unique_blocks@, ext, shapes, j,
                                    (pcount0 + 1) as usize);
                                assert(tileable(grid1, *size, counts1, unique_blocks@));
                                assert(sum_counts(counts1) >= 1);
                                assert(false);
                            }
                        }
                    } else {
                        proof {
                            if ext_anchors_rot(old(grid)@, *size, old(block_counter)@,
                                unique_blocks@, s as int, rotation, pos) {
                                let (ext, shapes, j): (Seq<(Block, Vec3)>, Seq<int>, int) =
                                    choose|ext: Seq<(Block, Vec3)>, shapes: Seq<int>, j: int|
                                        #![trigger ext_wf(old(grid)@, *size, old(block_counter)@, unique_blocks@, ext, shapes), shapes[j]]
                                        ext_wf(old(grid)@, *size, old(block_counter)@,
                                            unique_blocks@, ext, shapes)
                                            && 0 <= j < ext.len() && shapes[j] == s as int
                                            && ext[j] == (rotation, pos);
                                assert(ext[j].0 == rotation && ext[j].1 == pos);
                                assert(placement_in_bounds(pos, rotation, *size));
                                assert forall|i: int|
                                    0 <= i < old(grid)@.len()
                                        && #[trigger] covers_index(pos, rotation, *size, i)
                                    implies old(grid)@[i] == 0 by {
                                    assert(covers_index(ext[j].1, ext[j].0, *size, i));
                                }
                                assert(can_place(old(grid)@, pos, rotation, *size));
                                assert(false);
                            }
                        }
                    }
                    t = t + 1;
                }
                let count_restore = block_counter[s];
                block_counter[s] = count_restore + 1;
                proof {
                    assert(block_counter@ =~= old(block_counter)@);
                    if ext_anchors_shape(old(grid)@, *size, old(block_counter)@, unique_blocks@,
                        s as int, pos) {
                        let (ext, shapes, j): (Seq<(Block, Vec3)>, Seq<int>, int) =
                            choose|ext: Seq<(Block, Vec3)>, shapes: Seq<int>, j: int|
                                #![trigger ext_wf(old(grid)@, *size, old(block_counter)@, unique_blocks@, ext, shapes), shapes[j]]
                                ext_wf(old(grid)@, *size, old(block_counter)@, unique_blocks@,
                                    ext, shapes)
                                    && 0 <= j < ext.len() && shapes[j] == s as int
                                    && ext[j].1 == pos;
                        let rot = ext[j].0;
                        assert(spec_rotations(unique_blocks@[s as int]).contains(rot));
                        let u = choose|u: int| 0 <= u < rots@.len() && rots@[u] == rot;
                        assert(ext[j] == (rot, pos));
                        assert(ext_anchors_rot(old(grid)@, *size, old(block_counter)@,
                            unique_blocks@, s as int, rots@[u], pos));
                        assert(false);
                    }
                }
            } else {
                proof {
                    if ext_anchors_shape(old(grid)@, *size, old(block_counter)@, unique_blocks@,
                        s as int, pos) {
                        let (ext, shapes, j): (Seq<(Block, Vec3)>, Seq<int>, int) =
                            choose|ext: Seq<(Block, Vec3)>, shapes: Seq<int>, j: int|
                                #![trigger ext_wf(old(grid)@, *size, old(block_counter)@, unique_blocks@, ext, shapes), shapes[j]]
                                ext_wf(old(grid)@, *size, old(block_counter)@, unique_blocks@,
                                    ext, shapes)
                                    && 0 <= j < ext.len() && shapes[j] == s as int
                                    && ext[j].1 == pos;
                        lemma_uses_count_pos(shapes, s as int, j);
                        assert(false);
                    }
                }
            }
            s = s + 1;
        }
        proof {
            if sum_counts(old(block_counter)@) >= 1
                && tileable(old(grid)@, *size, old(block_counter)@, unique_blocks@) {
                let (ext, shapes): (Seq<(Block, Vec3)>, Seq<int>) =
                    choose|ext: Seq<(Block, Vec3)>, shapes: Seq<int>|
                        #[trigger] ext_wf(old(grid)@, *size, old(block_counter)@, unique_blocks@,
                            ext, shapes);
                lemma_ext_anchor_at_first_empty(old(grid)@, *size, old(block_counter)@,
                    unique_blocks@, ext, shapes, pos);
                let j = choose|j: int| 0 <= j < ext.len() && (#[trigger] ext[j]).1 == pos;
                assert(0 <= shapes[j] < unique_blocks@.len());
                assert(ext_anchors_shape(old(grid)@, *size, old(block_counter)@, unique_blocks@,
                    shapes[j], pos));
                assert(false);
            }
        }
        false
    } else {
        proof {
            if sum_counts(old(block_counter)@) >= 1
                && tileable(old(grid)@, *size, old(block_counter)@, unique_blocks@) {
                if forall|s2: int|
                    0 <= s2 < old(block_counter)@.len() ==> #[trigger] old(block_counter)@[s2] == 0 {
                    lemma_sum_counts_all_zero(old(block_counter)@, old(block_counter)@.len() as int);
                    assert(false);
                } else {
                    let s2 = choose|s2: int|
                        0 <= s2 < old(block_counter)@.len() && #[trigger] old(block_counter)@[s2] != 0;
                    lemma_ext_needs_empty_cell(old(grid)@, *size, old(block_counter)@,
                        unique_blocks@, s2);
                    let q = choose|q: Vec3|
                        in_bounds(q, *size) && old(grid)@[#[trigger] pos_index(q, *size)] == 0;
                    assert(false);
                }
            }
        }
        false
    }
}

/// One first-level worker of the fan-out: it takes one catalog shape, tries
/// each of the shape's rotations anchored at the container origin (0,0,0) -
/// not at the frontier cell the sequential engine would use: and recurses
/// into the ordinary sequential engine. On `false` the state is restored
/// exactly. Success is owed whenever some exact tiling of the empty region
/// anchors a block of this worker's shape at the origin and more than one
/// instance remains (with exactly one, the engine recurses into a full grid
/// and reports nothing, an inherited trait of the dispatcher).
pub fn worker_search(
    grid: &mut Vec<usize>,
    size: &Vec3,
    block_counter: &mut Vec<usize>,
    placed_block_count: &mut usize,
    block_count: usize,
    unique_blocks: &Vec<Block>,
    block_rotations: &Vec<Vec<Block>>,
    placed_blocks: &mut Vec<(Block, Vec3)>,
    shape_index: usize,
) -> (r: bool)
    requires
        catalog_wf(unique_blocks@, block_rotations@, old(block_counter)@),
        search_inv(old(grid)@, *size, old(block_counter)@, *old(placed_block_count) as int,
            block_count as int, unique_blocks@, old(placed_blocks)@),
        container_vol(*size) <= usize::MAX,
        block_count < usize::MAX,
        shape_index < unique_blocks@.len(),
        old(block_counter)@[shape_index as int] >= 1,
        size.0 >= 1,
        size.1 >= 1,
        size.2 >= 1,
    ensures
        !r ==> final(grid)@ == old(grid)@,
        !r ==> final(block_counter)@ == old(block_counter)@,
        !r ==> *final(placed_block_count) == *old(placed_block_count),
        !r ==> final(placed_blocks)@ == old(placed_blocks)@,
        r ==> search_inv(final(grid)@, *size, final(block_counter)@, *final(placed_block_count) as int,
            block_count as int, unique_blocks@, final(placed_blocks)@),
        r ==> *final(placed_block_count) == block_count + 1,
        r ==> placed_vol(final(placed_blocks)@) + remaining_vol(final(block_counter)@, unique_blocks@)
            == placed_vol(old(placed_blocks)@) + remaining_vol(old(block_counter)@, unique_blocks@),
        r ==> final(placed_blocks)@.len() >= old(placed_blocks)@.len(),
        r ==> forall|k: int|
            0 <= k < old(placed_blocks)@.len() ==> final(placed_blocks)@[k] == old(placed_blocks)@[k],
        r ==> final(block_counter)@.len() == old(block_counter)@.len(),
        r ==> forall|s2: int|
            0 <= s2 < old(block_counter)@.len()
                ==> #[trigger] final(block_counter)@[s2] <= old(block_counter)@[s2],
        (sum_counts(old(block_counter)@) >= 2
            && ext_anchors_shape(old(grid)@, *size, old(block_counter)@, unique_blocks@,
                shape_index as int, Vec3(0, 0, 0))) ==> r,
{
    let pos = Vec3(0, 0, 0);
    let count_s = block_counter[shape_index];
    block_counter[shape_index] = count_s - 1;
    proof {
        lemma_sum_counts_update(old(block_counter)@, shape_index as int, (count_s - 1) as usize);
        lemma_remaining_vol_update(old(block_counter)@, unique_blocks@, shape_index as int,
            (count_s - 1) as usize);
        lemma_sum_counts_lower(old(block_counter)@, shape_index as int,
            old(block_counter)@.len() as int);
        lemma_sum_counts_prefix_nonneg(block_counter@, block_counter@.len() as int);
        assert((count_s - 1) * block_vol(unique_blocks@[shape_index as int])
            == count_s * block_vol(unique_blocks@[shape_index as int])
                - block_vol(unique_blocks@[shape_index as int])) by (nonlinear_arith);
    }
    let ghost counts1 = block_counter@;
    let rots = &block_rotations[shape_index];
    let mut t: usize = 0;
    while t < rots.len()
        invariant
            t <= rots@.len(),
            shape_index < unique_blocks@.len(),
            pos == Vec3(0, 0, 0),
            in_bounds(pos, *size),
            grid@ == old(grid)@,
            block_counter@ == counts1,
            *placed_block_count == *old(placed_block_count),
            placed_blocks@ == old(placed_blocks)@,
            counts1 == old(block_counter)@.update(shape_index as int, (count_s - 1) as usize),
            old(block_counter)@[shape_index as int] == count_s,
            count_s >= 1,
            sum_counts(counts1) == sum_counts(old(block_counter)@) - 1,
            sum_counts(counts1) >= 0,
            sum_counts(old(block_counter)@) >= count_s,
            remaining_vol(counts1, unique_blocks@)
                == remaining_vol(old(block_counter)@, unique_blocks@)
                    - block_vol(unique_blocks@[shape_index as int]),
            catalog_wf(unique_blocks@, block_rotations@, old(block_counter)@),
            search_inv(old(grid)@, *size, old(block_counter)@, *old(placed_block_count) as int,
                block_count as int, unique_blocks@, old(placed_blocks)@),
            container_vol(*size) <= usize::MAX,
            block_count < usize::MAX,
            rots@ == spec_rotations(unique_blocks@[shape_index as int]),
            sum_counts(old(block_counter)@) >= 2 ==> forall|u: int|
                0 <= u < t
                    ==> !(#[trigger] ext_anchors_rot(old(grid)@, *size, old(block_counter)@,
                        unique_blocks@, shape_index as int, rots@[u], Vec3(0, 0, 0))),
        decreases rots@.len() - t,
    {
        let rotation = rots[t];
        proof {
            lemma_rotations_preserve_volume(unique_blocks@[shape_index as int]);
            assert(block_vol(rotation) == block_vol(unique_blocks@[shape_index as int]));
        }
        if !is_pos_blocked(grid, &pos, &rotation, size) {
            let ghost grid0 = grid@;
            let ghost pb0 = placed_blocks@;
            let ghost pcount0 = *placed_block_count as int;
            do_place(grid, &pos, &rotation, size, placed_block_count, placed_blocks);
            proof {
                assert(spec_rotations(unique_blocks@[shape_index as int]).contains(rotation));
                lemma_place_preserves_inv(grid0, grid@, *size, old(block_counter)@, counts1,
                    pcount0, block_count as int, unique_blocks@, shape_index as int, rotation,
                    pos, pb0);
            }
            let ghost grid1 = grid@;
            let result = dfs(grid, size, block_counter, placed_block_count, block_count,
                unique_blocks, block_rotations, placed_blocks);
            if result {
                return true;
            }
            proof {
                assert(grid@ == grid1);
                assert forall|i: int|
                    0 <= i < grid1.len() && covers_index(pos, rotation, *size, i)
                    implies grid1[i] != 0 by {
                    assert(grid1[i] == pcount0 + 1);
                }
            }
            undo_place(grid, &pos, &rotation, size, placed_block_count, placed_blocks);
            proof {
                assert forall|i: int| 0 <= i < grid@.len() implies grid@[i] == grid0[i] by {
                    if covers_index(pos, rotation, *size, i) {
                        assert(grid0[i] == 0);
                    } else {
                        assert(grid@[i] == grid1[i] && grid1[i] == grid0[i]);
                    }
                }
                assert(grid@ =~= grid0);
                assert(placed_blocks@ =~= pb0);
                if sum_counts(old(block_counter)@) >= 2
                    && ext_anchors_rot(old(grid)@, *size, old(block_counter)@, unique_blocks@,
                        shape_index as int, rotation, pos) {
                    let (ext, shapes, j): (Seq<(Block, Vec3)>, Seq<int>, int) =
                        choose|ext: Seq<(Block, Vec3)>, shapes: Seq<int>, j: int|
                            #![trigger ext_wf(old(grid)@, *size, old(block_counter)@, unique_blocks@, ext, shapes), shapes[j]]
                            ext_wf(old(grid)@, *size, old(block_counter)@, unique_blocks@, ext,
                                shapes)
                                && 0 <= j < ext.len() && shapes[j] == shape_index as int
                                && ext[j] == (rotation, pos);
                    assert(ext[j].0 == rotation && ext[j].1 == pos);
                    lemma_ext_place_step(old(grid)@, grid1, *size, old(block_counter)@, counts1,
                        unique_blocks@, ext, shapes, j, (pcount0 + 1) as usize);
                    assert(tileable(grid1, *size, counts1, unique_blocks@));
                    assert(sum_counts(counts1) >= 1);
                    assert(false);
                }
            }
        } else {
            proof {
                if sum_counts(old(block_counter)@) >= 2
                    && ext_anchors_rot(old(grid)@, *size, old(block_counter)@, unique_blocks@,
                        shape_index as int, rotation, pos) {
                    let (ext, shapes, j): (Seq<(Block, Vec3)>, Seq<int>, int) =
                        choose|ext: Seq<(Block, Vec3)>, shapes: Seq<int>, j: int|
                            #![trigger ext_wf(old(grid)@, *size, old(block_counter)@, unique_blocks@, ext, shapes), shapes[j]]
                            ext_wf(old(grid)@, *size, old(block_counter)@, unique_blocks@, ext,
                                shapes)
                                && 0 <= j < ext.len() && shapes[j] == shape_index as int
                                && ext[j] == (rotation, pos);
                    assert(ext[j].0 == rotation && ext[j].1 == pos);
                    assert(placement_in_bounds(pos, rotation, *size));
                    assert forall|i: int|
                        0 <= i < old(grid)@.len() && #[trigger] covers_index(pos, rotation, *size, i)
                        implies old(grid)@[i] == 0 by {
                        assert(covers_index(ext[j].1, ext[j].0, *size, i));
                    }
                    assert(can_place(old(grid)@, pos, rotation, *size));
                    assert(false);
                }
            }
        }
        t = t + 1;
    }
    let count_restore = block_counter[shape_index];
    block_counter[shape_index] = count_restore + 1;
    proof {
        assert(block_counter@ =~= old(block_counter)@);
        if sum_counts(old(block_counter)@) >= 2
            && ext_anchors_shape(old(grid)@, *size, old(block_counter)@, unique_blocks@,
                shape_index as int, Vec3(0, 0, 0)) {
            let (ext, shapes, j): (Seq<(Block, Vec3)>, Seq<int>, int) =
                choose|ext: Seq<(Block, Vec3)>, shapes: Seq<int>, j: int|
                    #![trigger ext_wf(old(grid)@, *size, old(block_counter)@, unique_blocks@, ext, shapes), shapes[j]]
                    ext_wf(old(grid)@, *size, old(block_counter)@, unique_blocks@, ext, shapes)
                        && 0 <= j < ext.len() && shapes[j] == shape_index as int
                        && ext[j].1 == Vec3(0, 0, 0);
            let rot = ext[j].0;
            assert(spec_rotations(unique_blocks@[shape_index as int]).contains(rot));
            let u = choose|u: int| 0 <= u < rots@.len() && rots@[u] == rot;
            assert(ext[j] == (rot, Vec3(0, 0, 0)));
            assert(ext_anchors_rot(old(grid)@, *size, old(block_counter)@, unique_blocks@,
                shape_index as int, rots@[u], Vec3(0, 0, 0)));
            assert(false);
        }
    }
    false
}

/// Runs the first-level fan-out to completion, one worker per catalog shape in
/// priority order, adopting the first success. This is the decision structure
/// of the parallel dispatcher; each call of `worker_search` is what one
/// spawned worker computes on its private copy of the state. Success is owed
/// whenever the origin cell is empty, the empty region is exactly tileable,
/// and more than one instance remains.
pub fn fan_out_search(
    grid: &mut Vec<usize>,
    size: &Vec3,
    block_counter: &mut Vec<usize>,
    placed_block_count: &mut usize,
    block_count: usize,
    unique_blocks: &Vec<Block>,
    block_rotations: &Vec<Vec<Block>>,
    placed_blocks: &mut Vec<(Block, Vec3)>,
) -> (r: bool)
    requires
        catalog_wf(unique_blocks@, block_rotations@, old(block_counter)@),
        search_inv(old(grid)@, *size, old(block_counter)@, *old(placed_block_count) as int,
            block_count as int, unique_blocks@, old(placed_blocks)@),
        container_vol(*size) <= usize::MAX,
        block_count < usize::MAX,
        forall|s: int| 0 <= s < old(block_counter)@.len() ==> #[trigger] old(block_counter)@[s] >= 1,
        size.0 >= 1,
        size.1 >= 1,
        size.2 >= 1,
    ensures
        !r ==> final(grid)@ == old(grid)@,
        !r ==> final(block_counter)@ == old(block_counter)@,
        !r ==> *final(placed_block_count) == *old(placed_block_count),
        !r ==> final(placed_blocks)@ == old(placed_blocks)@,
        r ==> search_inv(final(grid)@, *size, final(block_counter)@, *final(placed_block_count) as int,
            block_count as int, unique_blocks@, final(placed_blocks)@),
        r ==> *final(placed_block_count) == block_count + 1,
        r ==> placed_vol(final(placed_blocks)@) + remaining_vol(final(block_counter)@, unique_blocks@)
            == placed_vol(old(placed_blocks)@) + remaining_vol(old(block_counter)@, unique_blocks@),
        r ==> final(placed_blocks)@.len() >= old(placed_blocks)@.len(),
        r ==> forall|k: int|
            0 <= k < old(placed_blocks)@.len() ==> final(placed_blocks)@[k] == old(placed_blocks)@[k],
        r ==> final(block_counter)@.len() == old(block_counter)@.len(),
        r ==> forall|s2: int|
            0 <= s2 < old(block_counter)@.len()
                ==> #[trigger] final(block_counter)@[s2] <= old(block_counter)@[s2],
        (sum_counts(old(block_counter)@) >= 2
            && old(grid)@[pos_index(Vec3(0, 0, 0), *size)] == 0
            && tileable(old(grid)@, *size, old(block_counter)@, unique_blocks@)) ==> r,
{
    let mut s: usize = 0;
    while s < unique_blocks.len()
        invariant
            s <= unique_blocks@.len(),
            grid@ == old(grid)@,
            block_counter@ == old(block_counter)@,
            *placed_block_count == *old(placed_block_count),
            placed_blocks@ == old(placed_blocks)@,
            catalog_wf(unique_blocks@, block_rotations@, old(block_counter)@),
            search_inv(old(grid)@, *size, old(block_counter)@, *old(placed_block_count) as int,
                block_count as int, unique_blocks@, old(placed_blocks)@),
            container_vol(*size) <= usize::MAX,
            block_count < usize::MAX,
            forall|u: int| 0 <= u < old(block_counter)@.len() ==> #[trigger] old(block_counter)@[u] >= 1,
            size.0 >= 1,
            size.1 >= 1,
            size.2 >= 1,
            sum_counts(old(block_counter)@) >= 2 ==> forall|s2: int|
                0 <= s2 < s
                    ==> !(#[trigger] ext_anchors_shape(old(grid)@, *size, old(block_counter)@,
                        unique_blocks@, s2, Vec3(0, 0, 0))),
        decreases unique_blocks@.len() - s,
    {
        let result = worker_search(grid, size, block_counter, placed_block_count, block_count,
            unique_blocks, block_rotations, placed_blocks, s);
        if result {
            return true;
        }
        s = s + 1;
    }
    proof {
        if sum_counts(old(block_counter)@) >= 2
            && old(grid)@[pos_index(Vec3(0, 0, 0), *size)] == 0
            && tileable(old(grid)@, *size, old(block_counter)@, unique_blocks@) {
            let (ext, shapes): (Seq<(Block, Vec3)>, Seq<int>) =
                choose|ext: Seq<(Block, Vec3)>, shapes: Seq<int>|
                    #[trigger] ext_wf(old(grid)@, *size, old(block_counter)@, unique_blocks@, ext,
                        shapes);
            assert forall|q: Vec3| in_bounds(q, *size) && scan_lt(q, Vec3(0, 0, 0))
                implies old(grid)@[#[trigger] pos_index(q, *size)] != 0 by {
                assert(!scan_lt(q, Vec3(0, 0, 0)));
            }
            lemma_ext_anchor_at_first_empty(old(grid)@, *size, old(block_counter)@, unique_blocks@,
                ext, shapes, Vec3(0, 0, 0));
            let j = choose|j: int| 0 <= j < ext.len() && (#[trigger] ext[j]).1 == Vec3(0, 0, 0);
            assert(0 <= shapes[j] < unique_blocks@.len());
            assert(ext_anchors_shape(old(grid)@, *size, old(block_counter)@, unique_blocks@,
                shapes[j], Vec3(0, 0, 0)));
            assert(false);
        }
    }
    false
}

/// The problem parameters are well formed: a well-formed catalog whose
/// remaining counts sum to the declared block count, every shape present at
/// least once, and a non-degenerate container.
pub open spec fn params_wf(p: ProblemParams) -> bool {
    &&& catalog_wf(p.unique_blocks@, p.block_rotations@, p.block_counter@)
    &&& sum_counts(p.block_counter@) == p.block_count
    &&& forall|s: int| 0 <= s < p.block_counter@.len() ==> #[trigger] p.block_counter@[s] >= 1
    &&& p.size.0 >= 1
    &&& p.size.1 >= 1
    &&& p.size.2 >= 1
}

/// The fast-path volume condition: declared block volumes plus the reserved
/// seed cell equal the container volume.
pub open spec fn volumes_ok(p: ProblemParams) -> bool {
    1 + remaining_vol(p.block_counter@, p.unique_blocks@) == container_vol(p.size)
}

/// The reserved seed cell: the container's geometric centre.
pub open spec fn seed_pos(p: ProblemParams) -> Vec3 {
    Vec3((p.size.0 / 2) as usize, (p.size.1 / 2) as usize, (p.size.2 / 2) as usize)
}

/// The grid as it stands right after the reserved seed is placed: empty but
/// for the label 1 at the container's centre cell.
pub open spec fn seeded_grid(p: ProblemParams) -> Seq<usize> {
    Seq::new(container_vol(p.size) as nat, |i: int|
        if i == pos_index(seed_pos(p), p.size) { 1usize } else { 0usize })
}

/// What a returned solution guarantees: the grid and log are mutually
/// consistent (so the logged placements partition the container), no cell is
/// left empty, every non-seed placement is an orientation of a catalog shape,
/// the log holds exactly the declared count plus the seed, and the seed
/// placement comes first.
pub open spec fn solution_complete(sol: Solution, p: ProblemParams) -> bool {
    &&& complete_packing(sol.grid@, sol.placed_blocks@, p.size, p.unique_blocks@)
    &&& sol.placed_blocks@.len() == p.block_count + 1
    &&& sol.placed_blocks@[0] == (Block(1, 1, 1), seed_pos(p))
}

/// One solve attempt: checks the volume fast path, pre-places the seed cell at
/// the container's centre, and runs the sequential engine (or the fan-out over
/// first shapes when `do_threaded` is set). Returns a solution only when the
/// grid was filled completely and exactly; conversely, the sequential mode
/// owes a solution whenever the volumes match and the seeded grid is exactly
/// tileable, and the fan-out mode owes one under the same condition when the
/// seed is off the origin and at least two blocks are declared.
pub fn solve_problem(params: &mut ProblemParams, do_threaded: bool) -> (r: Option<Solution>)
    requires
        params_wf(*old(params)),
        container_vol(old(params).size) <= usize::MAX,
        old(params).block_count < usize::MAX,
    ensures
        *final(params) == *old(params),
        !volumes_ok(*old(params)) ==> r is None,
        r matches Some(sol) ==> volumes_ok(*old(params)) && solution_complete(sol, *old(params)),
        (!do_threaded && volumes_ok(*old(params))
            && (old(params).block_count == 0
                || tileable(seeded_grid(*old(params)), old(params).size,
                    old(params).block_counter@, old(params).unique_blocks@))) ==> r is Some,
        (do_threaded && volumes_ok(*old(params)) && old(params).block_count >= 2
            && seed_pos(*old(params)) != Vec3(0, 0, 0)
            && tileable(seeded_grid(*old(params)), old(params).size,
                old(params).block_counter@, old(params).unique_blocks@)) ==> r is Some,
{
    let size = params.size;
    proof {
        assert(size.0 * size.1 <= container_vol(size)) by (nonlinear_arith)
            requires size.0 >= 1, size.1 >= 1, size.2 >= 1;
    }
    let total = size.0 * size.1 * size.2;
    let mut grid: Vec<usize> = Vec::new();
    while grid.len() < total
        invariant
            grid@.len() <= total,
            forall|i: int| 0 <= i < grid@.len() ==> grid@[i] == 0,
        decreases total - grid@.len(),
    {
        grid.push(0);
    }
    let mut placed_block_count: usize = 0;
    let mut placed_blocks: Vec<(Block, Vec3)> = Vec::new();
    let mut block_counter: Vec<usize> = Vec::new();
    let mut ci: usize = 0;
    while ci < params.block_counter.len()
        invariant
            ci <= params.block_counter@.len(),
            block_counter@.len() == ci,
            forall|i: int| 0 <= i < ci ==> block_counter@[i] == params.block_counter@[i],
            *params == *old(params),
        decreases params.block_counter@.len() - ci,
    {
        block_counter.push(params.block_counter[ci]);
        ci = ci + 1;
    }
    proof {
        assert(block_counter@ =~= params.block_counter@);
    }
    if !check_volumes(&size, &params.unique_blocks, &block_counter) {
        return None;
    }
    let seed = Vec3(size.0 / 2, size.1 / 2, size.2 / 2);
    let seed_block = Block(1, 1, 1);
    proof {
        lemma_count_nonzero_all_zero(grid@);
    }
    do_place(&mut grid, &seed, &seed_block, &size, &mut placed_block_count, &mut placed_blocks);
    proof {
        let pb = placed_blocks@;
        assert(pb.len() == 1 && pb[0] == (seed_block, seed));
        assert(block_vol(seed_block) == 1);
        assert(placed_vol(pb) == 1) by {
            assert(placed_vol_prefix(pb, 0) == 0);
        }
        assert forall|k: int, i: int|
            0 <= k < pb.len() && 0 <= i < grid@.len() && covers_index((#[trigger] pb[k]).1, pb[k].0, size, i)
            implies #[trigger] grid@[i] == k + 1 by {
            assert(k == 0);
            assert(grid@[i] == 1);
        }
        assert(grid_matches_log(grid@, pb, size));
        assert(search_inv(grid@, size, block_counter@, placed_block_count as int,
            params.block_count as int, params.unique_blocks@, pb));
        assert(seed == seed_pos(*old(params)));
        assert forall|i: int| 0 <= i < grid@.len()
            implies grid@[i] == seeded_grid(*old(params))[i] by {
            lemma_index_decode(i, size);
            lemma_pos_index_encode(seed, size);
            if i == pos_index(seed, size) {
                assert(covers_index(seed, seed_block, size, i));
                assert(grid@[i] == 1);
            } else {
                if covers_index(seed, seed_block, size, i) {
                    assert(index_x(i, size) == seed.0 && index_y(i, size) == seed.1
                        && index_z(i, size) == seed.2);
                    assert(i == pos_index(seed, size));
                }
                assert(grid@[i] == 0);
            }
        }
        assert(grid@ =~= seeded_grid(*old(params)));
    }
    // the seed alone can reach the target count (a unit container with no
    // declared blocks): that is already a complete packing
    let has_solution = if placed_block_count == params.block_count + 1 {
        true
    } else if do_threaded {
        fan_out_search(&mut grid, &size, &mut block_counter, &mut placed_block_count,
            params.block_count, &params.unique_blocks, &params.block_rotations, &mut placed_blocks)
    } else {
        dfs(&mut grid, &size, &mut block_counter, &mut placed_block_count, params.block_count,
            &params.unique_blocks, &params.block_rotations, &mut placed_blocks)
    };
    if has_solution {
        proof {
            assert(sum_counts(block_counter@) == 0);
            lemma_sum_counts_zero(block_counter@, block_counter@.len() as int);
            lemma_remaining_vol_all_zero(block_counter@, params.unique_blocks@,
                block_counter@.len() as int);
            assert(placed_vol(placed_blocks@) == container_vol(size));
            assert(count_nonzero(grid@) == grid@.len());
            lemma_count_nonzero_full(grid@);
            assert(placed_blocks@[0] == (seed_block, seed));
        }
        Some(Solution { grid, placed_blocks })
    } else {
        proof {
            let p0 = *old(params);
            if !do_threaded && volumes_ok(p0)
                && (p0.block_count == 0
                    || tileable(seeded_grid(p0), p0.size, p0.block_counter@, p0.unique_blocks@)) {
                assert(p0.block_count != 0);
                assert(false);
            }
            if do_threaded && volumes_ok(p0) && p0.block_count >= 2
                && seed_pos(p0) != Vec3(0, 0, 0)
                && tileable(seeded_grid(p0), p0.size, p0.block_counter@, p0.unique_blocks@) {
                let z0 = Vec3(0, 0, 0);
                assert(z0.1 * size.0 == 0 && z0.2 * (size.0 * size.1) == 0) by (nonlinear_arith)
                    requires z0.1 == 0, z0.2 == 0;
                assert(pos_index(Vec3(0, 0, 0), size) == 0);
                if pos_index(seed, size) == 0 {
                    assert(in_bounds(Vec3(0, 0, 0), size));
                    lemma_pos_index_injective(seed, Vec3(0, 0, 0), size);
                    assert(false);
                }
                assert(seeded_grid(p0)[0] == 0);
                assert(false);
            }
        }
        None
    }
}

/// The catalog priority order: blocks compared lexicographically by extents.
pub open spec fn block_lt(a: Block, b: Block) -> bool {
    ||| a.0 < b.0
    ||| (a.0 == b.0 && a.1 < b.1)
    ||| (a.0 == b.0 && a.1 == b.1 && a.2 < b.2)
}

/// Compares two blocks in the catalog priority order.
fn block_is_less(a: &Block, b: &Block) -> (r: bool)
    ensures
        r == block_lt(*a, *b),
{
    a.0 < b.0 || (a.0 == b.0 && (a.1 < b.1 || (a.1 == b.1 && a.2 < b.2)))
}

/// Whether two blocks have identical extents.
fn blocks_equal(a: &Block, b: &Block) -> (r: bool)
    ensures
        r == (*a == *b),
{
    a.0 == b.0 && a.1 == b.1 && a.2 == b.2
}

/// Builds well-formed problem parameters from the container size and the
/// declared block list: each block is canonicalized by sorting its extents
/// descending, equal shapes are merged into one catalog entry with its input
/// multiplicity, entries are kept in strictly descending priority order
/// (largest first), and each entry's distinct rotations are precomputed.
pub fn build_params(size: Vec3, blocks: &Vec<Block>) -> (p: ProblemParams)
    requires
        size.0 >= 1,
        size.1 >= 1,
        size.2 >= 1,
        forall|i: int|
            0 <= i < blocks@.len()
                ==> (#[trigger] blocks@[i]).0 >= 1 && blocks@[i].1 >= 1 && blocks@[i].2 >= 1,
    ensures
        params_wf(p),
        p.size == size,
        p.block_count == blocks@.len(),
        forall|s: int|
            0 <= s < p.unique_blocks@.len()
                ==> (#[trigger] p.unique_blocks@[s]).0 >= p.unique_blocks@[s].1
                    && p.unique_blocks@[s].1 >= p.unique_blocks@[s].2,
        forall|s1: int, s2: int|
            0 <= s1 < s2 < p.unique_blocks@.len()
                ==> block_lt(#[trigger] p.unique_blocks@[s2], #[trigger] p.unique_blocks@[s1]),
        forall|s: int|
            0 <= s < p.unique_blocks@.len()
                ==> #[trigger] p.block_counter@[s] == canon_count(blocks@, p.unique_blocks@[s]),
        forall|i: int|
            0 <= i < blocks@.len()
                ==> exists|s: int|
                    0 <= s < p.unique_blocks@.len()
                        && p.unique_blocks@[s] == #[trigger] canon_block(blocks@[i]),
{
    let mut unique_blocks: Vec<Block> = Vec::new();
    let mut block_counter: Vec<usize> = Vec::new();
    let mut j: usize = 0;
    while j < blocks.len()
        invariant
            j <= blocks@.len(),
            forall|i: int|
                0 <= i < blocks@.len()
                    ==> (#[trigger] blocks@[i]).0 >= 1 && blocks@[i].1 >= 1 && blocks@[i].2 >= 1,
            unique_blocks@.len() == block_counter@.len(),
            forall|s: int|
                0 <= s < unique_blocks@.len()
                    ==> (#[trigger] unique_blocks@[s]).0 >= unique_blocks@[s].1
                        && unique_blocks@[s].1 >= unique_blocks@[s].2
                        && unique_blocks@[s].0 >= 1 && unique_blocks@[s].1 >= 1
                        && unique_blocks@[s].2 >= 1,
            forall|s1: int, s2: int|
                0 <= s1 < s2 < unique_blocks@.len()
                    ==> block_lt(#[trigger] unique_blocks@[s2], #[trigger] unique_blocks@[s1]),
            forall|s: int|
                0 <= s < unique_blocks@.len()
                    ==> #[trigger] block_counter@[s]
                        == canon_count_prefix(blocks@, unique_blocks@[s], j as int)
                        && block_counter@[s] >= 1,
            sum_counts(block_counter@) == j,
            forall|i: int|
                0 <= i < j
                    ==> exists|s: int|
                        0 <= s < unique_blocks@.len()
                            && unique_blocks@[s] == #[trigger] canon_block(blocks@[i]),
        decreases blocks@.len() - j,
    {
        let cb = canonical_block(&blocks[j]);
        let mut pos: usize = 0;
        while pos < unique_blocks.len() && block_is_less(&cb, &unique_blocks[pos])
            invariant
                pos <= unique_blocks@.len(),
                forall|u2: int| 0 <= u2 < pos ==> block_lt(cb, #[trigger] unique_blocks@[u2]),
            decreases unique_blocks@.len() - pos,
        {
            pos = pos + 1;
        }
        let mut matched = false;
        if pos < unique_blocks.len() {
            if blocks_equal(&cb, &unique_blocks[pos]) {
                matched = true;
            }
        }
        if matched {
            let c0 = block_counter[pos];
            proof {
                lemma_sum_counts_lower(block_counter@, pos as int, block_counter@.len() as int);
                lemma_sum_counts_update(block_counter@, pos as int, (c0 + 1) as usize);
                assert forall|s: int|
                    0 <= s < unique_blocks@.len() && s != pos
                    implies unique_blocks@[s] != cb by {
                    if s < pos {
                        assert(block_lt(cb, unique_blocks@[s]));
                    } else {
                        assert(block_lt(unique_blocks@[s], unique_blocks@[pos as int]));
                    }
                }
            }
            block_counter[pos] = c0 + 1;
        } else {
            proof {
                assert forall|s: int| 0 <= s < unique_blocks@.len()
                    implies unique_blocks@[s] != cb by {
                    if s < pos {
                        assert(block_lt(cb, unique_blocks@[s]));
                    } else if s == pos {
                        assert(!block_lt(cb, unique_blocks@[s]));
                    } else {
                        assert(block_lt(unique_blocks@[s], unique_blocks@[pos as int]));
                        assert(!block_lt(cb, unique_blocks@[pos as int]));
                    }
                }
                assert forall|i: int| 0 <= i < j
                    implies canon_block(#[trigger] blocks@[i]) != cb by {
                    let s = choose|s: int|
                        0 <= s < unique_blocks@.len()
                            && unique_blocks@[s] == canon_block(blocks@[i]);
                    assert(unique_blocks@[s] != cb);
                }
                lemma_canon_count_absent(blocks@, cb, j as int);
            }
            let ghost u0 = unique_blocks@;
            let ghost k0 = block_counter@;
            unique_blocks.insert(pos, cb);
            block_counter.insert(pos, 1);
            proof {
                u0.insert_ensures(pos as int, cb);
                k0.insert_ensures(pos as int, 1usize);
                lemma_sum_counts_insert(k0, pos as int, 1usize);
                assert forall|s1: int, s2: int|
                    0 <= s1 < s2 < unique_blocks@.len()
                    implies block_lt(
                        #[trigger] unique_blocks@[s2], #[trigger] unique_blocks@[s1]) by {
                    if s1 < pos && s2 < pos {
                    } else if s1 < pos && s2 == pos {
                        assert(unique_blocks@[s2] == cb && unique_blocks@[s1] == u0[s1]);
                    } else if s1 < pos && s2 > pos {
                        assert(unique_blocks@[s2] == u0[s2 - 1] && unique_blocks@[s1] == u0[s1]);
                    } else if s1 == pos {
                        assert(unique_blocks@[s1] == cb && unique_blocks@[s2] == u0[s2 - 1]);
                        assert(!block_lt(cb, u0[pos as int]));
                        assert(u0[pos as int] != cb);
                    } else {
                        assert(unique_blocks@[s1] == u0[s1 - 1] && unique_blocks@[s2] == u0[s2 - 1]);
                    }
                }
                assert forall|s: int| 0 <= s < unique_blocks@.len()
                    implies #[trigger] block_counter@[s]
                        == canon_count_prefix(blocks@, unique_blocks@[s], j as int + 1)
                        && block_counter@[s] >= 1 by {
                    if s == pos {
                        assert(block_counter@[s] == 1);
                        assert(canon_count_prefix(blocks@, cb, j as int) == 0);
                    } else {
                        let s0: int = if s < pos { s } else { s - 1 };
                        assert(unique_blocks@[s] == u0[s0] && block_counter@[s] == k0[s0]);
                        assert(u0[s0] != cb);
                    }
                }
                assert forall|i: int| 0 <= i < j + 1
                    implies exists|s: int|
                        0 <= s < unique_blocks@.len()
                            && unique_blocks@[s] == #[trigger] canon_block(blocks@[i]) by {
                    if i == j {
                        assert(unique_blocks@[pos as int] == canon_block(blocks@[i]));
                    } else {
                        let s0 = choose|s0: int|
                            0 <= s0 < u0.len() && u0[s0] == canon_block(blocks@[i]);
                        let s: int = if s0 < pos { s0 } else { s0 + 1 };
                        assert(unique_blocks@[s] == u0[s0]);
                    }
                }
            }
        }
        j = j + 1;
    }
    let mut block_rotations: Vec<Vec<Block>> = Vec::new();
    let mut s: usize = 0;
    while s < unique_blocks.len()
        invariant
            s <= unique_blocks@.len(),
            block_rotations@.len() == s,
            forall|u2: int|
                0 <= u2 < s
                    ==> (#[trigger] block_rotations@[u2])@ == spec_rotations(unique_blocks@[u2]),
        decreases unique_blocks@.len() - s,
    {
        let rots = unique_blocks[s].get_rotations();
        block_rotations.push(rots);
        s = s + 1;
    }
    ProblemParams {
        size,
        block_count: blocks.len(),
        unique_blocks,
        block_counter,
        block_rotations,
    }
}

} // verus!
