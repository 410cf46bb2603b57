//! The mathematical model of the packing state: the row-major grid index and
//! its bijection with coordinates, cell coverage of an anchored block, counting
//! of occupied cells, and the volumes tracked by the search.

use vstd::prelude::*;
use vstd::arithmetic::div_mod::{
    lemma_fundamental_div_mod, lemma_fundamental_div_mod_converse,
    lemma_mod_division_less_than_divisor, lemma_div_pos_is_pos, lemma_multiply_divide_lt,
};
use crate::data_structs::{Block, Vec3, block_vol};

verus! {

/// The container's volume in unit cells.
pub open spec fn container_vol(size: Vec3) -> int {
    size.0 * size.1 * size.2
}

/// Whether a coordinate lies inside the container.
pub open spec fn in_bounds(p: Vec3, size: Vec3) -> bool {
    p.0 < size.0 && p.1 < size.1 && p.2 < size.2
}

/// The row-major flat index of a coordinate: x varies fastest.
pub open spec fn pos_index(p: Vec3, size: Vec3) -> int {
    p.0 + p.1 * size.0 + p.2 * (size.0 * size.1)
}

/// The x coordinate encoded in a flat index.
pub open spec fn index_x(i: int, size: Vec3) -> int {
    i % (size.0 as int)
}

/// The y coordinate encoded in a flat index.
pub open spec fn index_y(i: int, size: Vec3) -> int {
    (i / (size.0 as int)) % (size.1 as int)
}

/// The z coordinate encoded in a flat index.
pub open spec fn index_z(i: int, size: Vec3) -> int {
    i / (size.0 as int * size.1 as int)
}

/// Whether the cell (x, y, z) is covered by `block` anchored at `pos`.
pub open spec fn covers_at(pos: Vec3, block: Block, x: int, y: int, z: int) -> bool {
    &&& pos.0 <= x < pos.0 + block.0
    &&& pos.1 <= y < pos.1 + block.1
    &&& pos.2 <= z < pos.2 + block.2
}

/// Whether the coordinate `p` is covered by `block` anchored at `pos`.
pub open spec fn covers(pos: Vec3, block: Block, p: Vec3) -> bool {
    covers_at(pos, block, p.0 as int, p.1 as int, p.2 as int)
}

/// Whether the cell with flat index `i` is covered by `block` anchored at `pos`.
pub open spec fn covers_index(pos: Vec3, block: Block, size: Vec3, i: int) -> bool {
    covers_at(pos, block, index_x(i, size), index_y(i, size), index_z(i, size))
}

/// A placement is geometrically valid: positive extents, entirely inside the container.
pub open spec fn placement_in_bounds(pos: Vec3, block: Block, size: Vec3) -> bool {
    &&& block.0 >= 1 && block.1 >= 1 && block.2 >= 1
    &&& pos.0 + block.0 <= size.0
    &&& pos.1 + block.1 <= size.1
    &&& pos.2 + block.2 <= size.2
}

/// The x coordinate of the m-th cell of a block anchored at `pos`
/// (cells enumerated x-major, z fastest).
pub open spec fn cell_x(pos: Vec3, block: Block, m: int) -> int {
    pos.0 + m / (block.1 as int * block.2 as int)
}

/// The y coordinate of the m-th cell of a block anchored at `pos`.
pub open spec fn cell_y(pos: Vec3, block: Block, m: int) -> int {
    pos.1 + (m / (block.2 as int)) % (block.1 as int)
}

/// The z coordinate of the m-th cell of a block anchored at `pos`.
pub open spec fn cell_z(pos: Vec3, block: Block, m: int) -> int {
    pos.2 + m % (block.2 as int)
}

/// The flat grid index of the m-th cell of a block anchored at `pos`.
pub open spec fn cell_index(pos: Vec3, block: Block, size: Vec3, m: int) -> int {
    cell_x(pos, block, m) + cell_y(pos, block, m) * size.0 + cell_z(pos, block, m) * (size.0 * size.1)
}

/// Encoding a triple (a, b, c) with 0 <= a < da, 0 <= b < db, 0 <= c < dc as
/// a * db * dc + b * dc + c is within range and decodes back by div and mod.
pub proof fn lemma_flat3_encode(a: int, b: int, c: int, da: int, db: int, dc: int)
    requires
        0 <= a < da,
        0 <= b < db,
        0 <= c < dc,
    ensures
        0 <= a * (db * dc) + b * dc + c < da * (db * dc),
        (a * (db * dc) + b * dc + c) / (db * dc) == a,
        ((a * (db * dc) + b * dc + c) / dc) % db == b,
        (a * (db * dc) + b * dc + c) % dc == c,
{
    let f = a * (db * dc) + b * dc + c;
    assert(0 <= b * dc + c < db * dc) by (nonlinear_arith)
        requires 0 <= b < db, 0 <= c < dc;
    lemma_fundamental_div_mod_converse(f, db * dc, a, b * dc + c);
    assert(f == (a * db + b) * dc + c) by (nonlinear_arith)
        requires f == a * (db * dc) + b * dc + c;
    lemma_fundamental_div_mod_converse(f, dc, a * db + b, c);
    lemma_fundamental_div_mod_converse(a * db + b, db, a, b);
    assert(0 <= f < da * (db * dc)) by (nonlinear_arith)
        requires f == a * (db * dc) + (b * dc + c), 0 <= a < da, 0 <= b * dc + c < db * dc;
}

/// Any flat value i with 0 <= i < da * db * dc decomposes by div and mod into
/// a triple within the three ranges that re-encodes to i.
pub proof fn lemma_flat3_decode(i: int, da: int, db: int, dc: int)
    requires
        1 <= da,
        1 <= db,
        1 <= dc,
        0 <= i < da * (db * dc),
    ensures
        0 <= i / (db * dc) < da,
        0 <= (i / dc) % db < db,
        0 <= i % dc < dc,
        (i / (db * dc)) * (db * dc) + ((i / dc) % db) * dc + (i % dc) == i,
{
    assert(0 < db * dc) by (nonlinear_arith)
        requires 1 <= db, 1 <= dc;
    lemma_fundamental_div_mod(i, db * dc);
    lemma_mod_division_less_than_divisor(i, db * dc);
    lemma_div_pos_is_pos(i, db * dc);
    lemma_multiply_divide_lt(i, db * dc, da);
    let a = i / (db * dc);
    let r = i % (db * dc);
    lemma_fundamental_div_mod(r, dc);
    lemma_mod_division_less_than_divisor(r, dc);
    lemma_div_pos_is_pos(r, dc);
    assert(db * dc == dc * db) by (nonlinear_arith);
    lemma_multiply_divide_lt(r, dc, db);
    let b = r / dc;
    let c = r % dc;
    assert(i == a * (db * dc) + b * dc + c) by (nonlinear_arith)
        requires i == (db * dc) * a + r, r == dc * b + c;
    lemma_flat3_encode(a, b, c, da, db, dc);
}

/// The row-major index of an in-bounds coordinate is within the container
/// volume, decodes back to the coordinate, and its partial sums stay within
/// the volume (so the executable computation cannot overflow).
pub proof fn lemma_pos_index_encode(p: Vec3, size: Vec3)
    requires
        in_bounds(p, size),
    ensures
        0 <= pos_index(p, size) < container_vol(size),
        index_x(pos_index(p, size), size) == p.0,
        index_y(pos_index(p, size), size) == p.1,
        index_z(pos_index(p, size), size) == p.2,
        0 <= p.1 * size.0 <= pos_index(p, size),
        0 <= p.2 * size.0 <= p.2 * size.0 * size.1 <= pos_index(p, size),
        p.2 * size.0 * size.1 == p.2 * (size.0 * size.1),
{
    lemma_flat3_encode(p.2 as int, p.1 as int, p.0 as int, size.2 as int, size.1 as int, size.0 as int);
    assert(p.2 * (size.1 * size.0) == p.2 * (size.0 * size.1) && p.2 * size.0 * size.1 == p.2 * (size.0 * size.1)
        && size.2 * (size.1 * size.0) == size.0 * size.1 * size.2) by (nonlinear_arith);
    assert(0 <= p.1 * size.0) by (nonlinear_arith)
        requires 0 <= p.1 as int, 0 <= size.0 as int;
    assert(0 <= p.2 * size.0 && p.2 * size.0 <= p.2 * size.0 * size.1) by (nonlinear_arith)
        requires 0 <= p.2 as int, 0 <= size.0 as int, 1 <= size.1 as int;
}

/// Any flat index within the container volume decodes to an in-bounds
/// coordinate that re-encodes to the same index.
pub proof fn lemma_index_decode(i: int, size: Vec3)
    requires
        size.0 >= 1,
        size.1 >= 1,
        size.2 >= 1,
        0 <= i < container_vol(size),
    ensures
        0 <= index_x(i, size) < size.0,
        0 <= index_y(i, size) < size.1,
        0 <= index_z(i, size) < size.2,
        index_x(i, size) + index_y(i, size) * size.0 + index_z(i, size) * (size.0 * size.1) == i,
{
    assert(size.0 * size.1 * size.2 == size.2 * (size.1 * size.0) && size.0 as int * size.1 as int == size.1 as int * size.0 as int)
        by (nonlinear_arith);
    lemma_flat3_decode(i, size.2 as int, size.1 as int, size.0 as int);
}

/// The row-major index is injective over in-bounds coordinates.
pub proof fn lemma_pos_index_injective(p: Vec3, q: Vec3, size: Vec3)
    requires
        in_bounds(p, size),
        in_bounds(q, size),
        pos_index(p, size) == pos_index(q, size),
    ensures
        p == q,
{
    lemma_pos_index_encode(p, size);
    lemma_pos_index_encode(q, size);
}

/// The m-th cell of a block is covered by the block, and conversely each
/// covered cell is the m-th cell for exactly one m.
pub proof fn lemma_cell_decode(pos: Vec3, block: Block, m: int)
    requires
        block.0 >= 1,
        block.1 >= 1,
        block.2 >= 1,
        0 <= m < block_vol(block),
    ensures
        covers_at(pos, block, cell_x(pos, block, m), cell_y(pos, block, m), cell_z(pos, block, m)),
{
    assert(block.0 * block.1 * block.2 == block.0 * (block.1 as int * block.2 as int)) by (nonlinear_arith);
    lemma_flat3_decode(m, block.0 as int, block.1 as int, block.2 as int);
}

/// A cell covered by an anchored block is the m-th cell of the block for the
/// offset-encoded m.
pub proof fn lemma_cell_encode(pos: Vec3, block: Block, x: int, y: int, z: int)
    requires
        covers_at(pos, block, x, y, z),
    ensures
        0 <= (x - pos.0) * (block.1 as int * block.2 as int) + (y - pos.1) * (block.2 as int) + (z - pos.2) < block_vol(block),
        cell_x(pos, block, (x - pos.0) * (block.1 as int * block.2 as int) + (y - pos.1) * (block.2 as int) + (z - pos.2)) == x,
        cell_y(pos, block, (x - pos.0) * (block.1 as int * block.2 as int) + (y - pos.1) * (block.2 as int) + (z - pos.2)) == y,
        cell_z(pos, block, (x - pos.0) * (block.1 as int * block.2 as int) + (y - pos.1) * (block.2 as int) + (z - pos.2)) == z,
{
    lemma_flat3_encode(x - pos.0, y - pos.1, z - pos.2, block.0 as int, block.1 as int, block.2 as int);
    assert(block.0 * (block.1 as int * block.2 as int) == block_vol(block)) by (nonlinear_arith);
}

/// The m-th cell of an in-bounds placement has a flat index within the
/// container, that index is covered by the placement, and it decodes back to
/// the cell's coordinates.
pub proof fn lemma_cell_index_props(pos: Vec3, block: Block, size: Vec3, m: int)
    requires
        placement_in_bounds(pos, block, size),
        0 <= m < block_vol(block),
    ensures
        0 <= cell_index(pos, block, size, m) < container_vol(size),
        covers_index(pos, block, size, cell_index(pos, block, size, m)),
        index_x(cell_index(pos, block, size, m), size) == cell_x(pos, block, m),
        index_y(cell_index(pos, block, size, m), size) == cell_y(pos, block, m),
        index_z(cell_index(pos, block, size, m), size) == cell_z(pos, block, m),
{
    lemma_cell_decode(pos, block, m);
    let p = Vec3(cell_x(pos, block, m) as usize, cell_y(pos, block, m) as usize, cell_z(pos, block, m) as usize);
    assert(p.0 == cell_x(pos, block, m) && p.1 == cell_y(pos, block, m) && p.2 == cell_z(pos, block, m));
    lemma_pos_index_encode(p, size);
    assert(pos_index(p, size) == cell_index(pos, block, size, m));
}

/// Every flat index covered by an in-bounds placement is the index of one of
/// the placement's cells.
pub proof fn lemma_covered_index_is_cell(pos: Vec3, block: Block, size: Vec3, i: int)
    requires
        placement_in_bounds(pos, block, size),
        0 <= i < container_vol(size),
        covers_index(pos, block, size, i),
    ensures
        exists|m: int| 0 <= m < block_vol(block) && cell_index(pos, block, size, m) == i,
{
    lemma_index_decode(i, size);
    let x = index_x(i, size);
    let y = index_y(i, size);
    let z = index_z(i, size);
    lemma_cell_encode(pos, block, x, y, z);
    let m = (x - pos.0) * (block.1 as int * block.2 as int) + (y - pos.1) * (block.2 as int) + (z - pos.2);
    assert(cell_index(pos, block, size, m) == i);
    assert(0 <= m < block_vol(block) && cell_index(pos, block, size, m) == i);
}

/// Distinct cells of a placement have distinct flat indices.
pub proof fn lemma_cell_index_injective(pos: Vec3, block: Block, size: Vec3, m1: int, m2: int)
    requires
        placement_in_bounds(pos, block, size),
        0 <= m1 < block_vol(block),
        0 <= m2 < block_vol(block),
        m1 != m2,
    ensures
        cell_index(pos, block, size, m1) != cell_index(pos, block, size, m2),
{
    lemma_cell_index_props(pos, block, size, m1);
    lemma_cell_index_props(pos, block, size, m2);
    if cell_index(pos, block, size, m1) == cell_index(pos, block, size, m2) {
        assert(block.0 * (block.1 as int * block.2 as int) == block_vol(block)) by (nonlinear_arith);
        lemma_flat3_decode(m1, block.0 as int, block.1 as int, block.2 as int);
        lemma_flat3_decode(m2, block.0 as int, block.1 as int, block.2 as int);
    }
}

/// Whether one of the first j entries of the cell list equals the index i.
pub open spec fn index_written(cells: Seq<usize>, j: int, i: int) -> bool {
    exists|m: int| 0 <= m < j && cells[m] == i
}

/// How many cells of the grid hold a non-zero label.
pub open spec fn count_nonzero(s: Seq<usize>) -> int
    decreases s.len(),
{
    if s.len() == 0 {
        0
    } else {
        count_nonzero(s.drop_last()) + if s.last() != 0 { 1int } else { 0int }
    }
}

pub proof fn lemma_count_nonzero_bounds(s: Seq<usize>)
    ensures
        0 <= count_nonzero(s) <= s.len(),
    decreases s.len(),
{
    if s.len() > 0 {
        lemma_count_nonzero_bounds(s.drop_last());
    }
}

/// Overwriting one cell changes the non-zero count by the difference of the
/// old and new cell's zeroness.
pub proof fn lemma_count_nonzero_update(s: Seq<usize>, i: int, v: usize)
    requires
        0 <= i < s.len(),
    ensures
        count_nonzero(s.update(i, v)) == count_nonzero(s)
            - (if s[i] != 0 { 1int } else { 0int }) + (if v != 0 { 1int } else { 0int }),
    decreases s.len(),
{
    let t = s.update(i, v);
    if i == s.len() - 1 {
        assert(t.drop_last() =~= s.drop_last());
    } else {
        assert(t.drop_last() =~= s.drop_last().update(i, v));
        lemma_count_nonzero_update(s.drop_last(), i, v);
    }
}

pub proof fn lemma_count_nonzero_all_zero(s: Seq<usize>)
    requires
        forall|i: int| 0 <= i < s.len() ==> s[i] == 0,
    ensures
        count_nonzero(s) == 0,
    decreases s.len(),
{
    if s.len() > 0 {
        lemma_count_nonzero_all_zero(s.drop_last());
    }
}

/// A grid whose non-zero count equals its length has no empty cell.
pub proof fn lemma_count_nonzero_full(s: Seq<usize>)
    requires
        count_nonzero(s) == s.len(),
    ensures
        forall|i: int| 0 <= i < s.len() ==> s[i] != 0,
    decreases s.len(),
{
    if s.len() > 0 {
        lemma_count_nonzero_bounds(s.drop_last());
        lemma_count_nonzero_full(s.drop_last());
        assert(forall|i: int| 0 <= i < s.len() - 1 ==> s[i] == s.drop_last()[i]);
    }
}

/// The sum of the first n remaining-instance counts.
pub open spec fn sum_counts_prefix(c: Seq<usize>, n: int) -> int
    decreases n,
{
    if n <= 0 {
        0
    } else {
        sum_counts_prefix(c, n - 1) + c[n - 1]
    }
}

/// The total number of block instances still to be placed.
pub open spec fn sum_counts(c: Seq<usize>) -> int {
    sum_counts_prefix(c, c.len() as int)
}

pub proof fn lemma_sum_counts_prefix_nonneg(c: Seq<usize>, n: int)
    requires
        n <= c.len(),
    ensures
        0 <= sum_counts_prefix(c, n),
    decreases n,
{
    if n > 0 {
        lemma_sum_counts_prefix_nonneg(c, n - 1);
    }
}

pub proof fn lemma_sum_counts_prefix_agree(c: Seq<usize>, d: Seq<usize>, n: int)
    requires
        forall|j: int| 0 <= j < n ==> c[j] == d[j],
    ensures
        sum_counts_prefix(c, n) == sum_counts_prefix(d, n),
    decreases n,
{
    if n > 0 {
        lemma_sum_counts_prefix_agree(c, d, n - 1);
    }
}

/// Changing one count changes the sum by the difference.
pub proof fn lemma_sum_counts_update(c: Seq<usize>, i: int, v: usize)
    requires
        0 <= i < c.len(),
    ensures
        sum_counts(c.update(i, v)) == sum_counts(c) - c[i] + v,
{
    lemma_sum_counts_prefix_update(c, i, v, c.len() as int);
}

proof fn lemma_sum_counts_prefix_update(c: Seq<usize>, i: int, v: usize, n: int)
    requires
        0 <= i < n <= c.len(),
    ensures
        sum_counts_prefix(c.update(i, v), n) == sum_counts_prefix(c, n) - c[i] + v,
    decreases n,
{
    if i == n - 1 {
        lemma_sum_counts_prefix_agree(c.update(i, v), c, n - 1);
    } else {
        lemma_sum_counts_prefix_update(c, i, v, n - 1);
    }
}

/// The sum of counts splits off the last count.
pub proof fn lemma_sum_counts_drop_last(c: Seq<usize>)
    requires
        c.len() > 0,
    ensures
        sum_counts(c) == sum_counts(c.drop_last()) + c.last(),
{
    lemma_sum_counts_prefix_agree(c, c.drop_last(), c.len() - 1);
}

/// Inserting one count anywhere adds it to the sum.
pub proof fn lemma_sum_counts_insert(c: Seq<usize>, i: int, v: usize)
    requires
        0 <= i <= c.len(),
    ensures
        sum_counts(c.insert(i, v)) == sum_counts(c) + v,
    decreases c.len(),
{
    c.insert_ensures(i, v);
    let t = c.insert(i, v);
    if i == c.len() {
        lemma_sum_counts_drop_last(t);
        assert(t.drop_last() =~= c);
    } else {
        lemma_sum_counts_drop_last(t);
        lemma_sum_counts_drop_last(c);
        c.drop_last().insert_ensures(i, v);
        assert(t.drop_last() =~= c.drop_last().insert(i, v));
        lemma_sum_counts_insert(c.drop_last(), i, v);
        assert(t.last() == c.last());
    }
}

/// A zero sum of counts means every single count is zero.
pub proof fn lemma_sum_counts_zero(c: Seq<usize>, n: int)
    requires
        n <= c.len(),
        sum_counts_prefix(c, n) == 0,
    ensures
        forall|j: int| 0 <= j < n ==> c[j] == 0,
    decreases n,
{
    if n > 0 {
        lemma_sum_counts_prefix_nonneg(c, n - 1);
        lemma_sum_counts_zero(c, n - 1);
    }
}

/// The total of the counts is at least any single count.
pub proof fn lemma_sum_counts_lower(c: Seq<usize>, i: int, n: int)
    requires
        0 <= i < n <= c.len(),
    ensures
        sum_counts_prefix(c, n) >= c[i],
    decreases n,
{
    lemma_sum_counts_prefix_nonneg(c, n - 1);
    if i < n - 1 {
        lemma_sum_counts_lower(c, i, n - 1);
    }
}

/// A sequence of zero counts sums to zero.
pub proof fn lemma_sum_counts_all_zero(c: Seq<usize>, n: int)
    requires
        n <= c.len(),
        forall|j: int| 0 <= j < n ==> c[j] == 0,
    ensures
        sum_counts_prefix(c, n) == 0,
    decreases n,
{
    if n > 0 {
        lemma_sum_counts_all_zero(c, n - 1);
    }
}

/// The volume of the block instances still to be placed: each shape's volume
/// times its remaining count, over the first n catalog entries.
pub open spec fn remaining_vol_prefix(c: Seq<usize>, blocks: Seq<Block>, n: int) -> int
    decreases n,
{
    if n <= 0 {
        0
    } else {
        remaining_vol_prefix(c, blocks, n - 1) + c[n - 1] * block_vol(blocks[n - 1])
    }
}

/// The total volume of the block instances still to be placed.
pub open spec fn remaining_vol(c: Seq<usize>, blocks: Seq<Block>) -> int {
    remaining_vol_prefix(c, blocks, c.len() as int)
}

pub proof fn lemma_remaining_vol_prefix_agree(c: Seq<usize>, d: Seq<usize>, blocks: Seq<Block>, n: int)
    requires
        forall|j: int| 0 <= j < n ==> c[j] == d[j],
    ensures
        remaining_vol_prefix(c, blocks, n) == remaining_vol_prefix(d, blocks, n),
    decreases n,
{
    if n > 0 {
        lemma_remaining_vol_prefix_agree(c, d, blocks, n - 1);
    }
}

/// Changing one count changes the remaining volume by that shape's volume
/// times the difference.
pub proof fn lemma_remaining_vol_update(c: Seq<usize>, blocks: Seq<Block>, i: int, v: usize)
    requires
        0 <= i < c.len(),
    ensures
        remaining_vol(c.update(i, v), blocks) == remaining_vol(c, blocks)
            - c[i] * block_vol(blocks[i]) + v * block_vol(blocks[i]),
{
    lemma_remaining_vol_prefix_update(c, blocks, i, v, c.len() as int);
}

proof fn lemma_remaining_vol_prefix_update(c: Seq<usize>, blocks: Seq<Block>, i: int, v: usize, n: int)
    requires
        0 <= i < n <= c.len(),
    ensures
        remaining_vol_prefix(c.update(i, v), blocks, n) == remaining_vol_prefix(c, blocks, n)
            - c[i] * block_vol(blocks[i]) + v * block_vol(blocks[i]),
    decreases n,
{
    if i == n - 1 {
        lemma_remaining_vol_prefix_agree(c.update(i, v), c, blocks, n - 1);
    } else {
        lemma_remaining_vol_prefix_update(c, blocks, i, v, n - 1);
    }
}

/// The declared volume only grows as more catalog entries are summed.
pub proof fn lemma_remaining_vol_prefix_monotone(c: Seq<usize>, blocks: Seq<Block>, n1: int, n2: int)
    requires
        0 <= n1 <= n2,
    ensures
        remaining_vol_prefix(c, blocks, n1) <= remaining_vol_prefix(c, blocks, n2),
    decreases n2,
{
    if n1 < n2 {
        lemma_remaining_vol_prefix_monotone(c, blocks, n1, n2 - 1);
        let cnt = c[n2 - 1] as int;
        let v = block_vol(blocks[n2 - 1]);
        assert(v >= 0) by (nonlinear_arith)
            requires v == blocks[n2 - 1].0 * blocks[n2 - 1].1 * blocks[n2 - 1].2,
                blocks[n2 - 1].0 >= 0, blocks[n2 - 1].1 >= 0, blocks[n2 - 1].2 >= 0;
        assert(cnt * v >= 0) by (nonlinear_arith)
            requires cnt >= 0, v >= 0;
    }
}

/// When every remaining count is zero, no volume remains to be placed.
pub proof fn lemma_remaining_vol_all_zero(c: Seq<usize>, blocks: Seq<Block>, n: int)
    requires
        forall|j: int| 0 <= j < n ==> c[j] == 0,
    ensures
        remaining_vol_prefix(c, blocks, n) == 0,
    decreases n,
{
    if n > 0 {
        lemma_remaining_vol_all_zero(c, blocks, n - 1);
        assert(c[n - 1] * block_vol(blocks[n - 1]) == 0) by (nonlinear_arith)
            requires c[n - 1] == 0;
    }
}

/// The total volume of the committed placements, over the first n log entries.
pub open spec fn placed_vol_prefix(pb: Seq<(Block, Vec3)>, n: int) -> int
    decreases n,
{
    if n <= 0 {
        0
    } else {
        placed_vol_prefix(pb, n - 1) + block_vol(pb[n - 1].0)
    }
}

/// The total volume of the committed placements.
pub open spec fn placed_vol(pb: Seq<(Block, Vec3)>) -> int {
    placed_vol_prefix(pb, pb.len() as int)
}

pub proof fn lemma_placed_vol_prefix_agree(pb: Seq<(Block, Vec3)>, qb: Seq<(Block, Vec3)>, n: int)
    requires
        forall|j: int| 0 <= j < n ==> pb[j] == qb[j],
    ensures
        placed_vol_prefix(pb, n) == placed_vol_prefix(qb, n),
    decreases n,
{
    if n > 0 {
        lemma_placed_vol_prefix_agree(pb, qb, n - 1);
    }
}

/// Committing one placement adds its block's volume to the placed volume.
pub proof fn lemma_placed_vol_push(pb: Seq<(Block, Vec3)>, e: (Block, Vec3))
    ensures
        placed_vol(pb.push(e)) == placed_vol(pb) + block_vol(e.0),
{
    lemma_placed_vol_prefix_agree(pb.push(e), pb, pb.len() as int);
}

/// The grid buffer and the placement log are mutually consistent: every
/// placement is in bounds and its cells carry its 1-based label, and every
/// non-zero cell belongs to the placement its label points at. Consequently
/// distinct placements never overlap.
pub open spec fn grid_matches_log(grid: Seq<usize>, pb: Seq<(Block, Vec3)>, size: Vec3) -> bool {
    &&& grid.len() == container_vol(size)
    &&& forall|k: int| 0 <= k < pb.len() ==> placement_in_bounds((#[trigger] pb[k]).1, pb[k].0, size)
    &&& forall|k: int, i: int|
        0 <= k < pb.len() && 0 <= i < grid.len() && covers_index((#[trigger] pb[k]).1, pb[k].0, size, i)
            ==> #[trigger] grid[i] == k + 1
    &&& forall|i: int|
        0 <= i < grid.len() && #[trigger] grid[i] != 0
            ==> 1 <= grid[i] <= pb.len() && covers_index(pb[grid[i] - 1].1, pb[grid[i] - 1].0, size, i)
}

/// A block can be placed: it lies inside the container and all of its cells
/// are currently empty.
pub open spec fn can_place(grid: Seq<usize>, pos: Vec3, block: Block, size: Vec3) -> bool {
    &&& placement_in_bounds(pos, block, size)
    &&& forall|i: int| 0 <= i < grid.len() && #[trigger] covers_index(pos, block, size, i) ==> grid[i] == 0
}

/// The frontier condition: the cell is empty and every in-container unit
/// predecessor along an axis is already filled.
pub open spec fn necessary_pos(grid: Seq<usize>, p: Vec3, size: Vec3) -> bool {
    &&& in_bounds(p, size)
    &&& grid[pos_index(p, size)] == 0
    &&& p.0 > 0 ==> grid[pos_index(Vec3((p.0 - 1) as usize, p.1, p.2), size)] != 0
    &&& p.1 > 0 ==> grid[pos_index(Vec3(p.0, (p.1 - 1) as usize, p.2), size)] != 0
    &&& p.2 > 0 ==> grid[pos_index(Vec3(p.0, p.1, (p.2 - 1) as usize), size)] != 0
}

/// The scan order of the frontier selector: x outermost, then y, then z.
pub open spec fn scan_lt(p: Vec3, q: Vec3) -> bool {
    ||| p.0 < q.0
    ||| (p.0 == q.0 && p.1 < q.1)
    ||| (p.0 == q.0 && p.1 == q.1 && p.2 < q.2)
}

/// The shape catalog is well formed: one rotation list and one remaining count
/// per shape, positive extents, and each rotation list is exactly the shape's
/// distinct orientations.
pub open spec fn catalog_wf(blocks: Seq<Block>, rots: Seq<Vec<Block>>, counts: Seq<usize>) -> bool {
    &&& rots.len() == blocks.len()
    &&& counts.len() == blocks.len()
    &&& forall|s: int|
        0 <= s < blocks.len()
            ==> (#[trigger] blocks[s]).0 >= 1 && blocks[s].1 >= 1 && blocks[s].2 >= 1
    &&& forall|s: int| 0 <= s < blocks.len() ==> (#[trigger] rots[s])@ == crate::data_structs::spec_rotations(blocks[s])
}

/// Every placement after the seed uses an orientation of a catalog shape.
pub open spec fn log_from_catalog(pb: Seq<(Block, Vec3)>, blocks: Seq<Block>) -> bool {
    forall|k: int|
        1 <= k < pb.len()
            ==> exists|s: int|
                0 <= s < blocks.len() && crate::data_structs::spec_rotations(blocks[s]).contains((#[trigger] pb[k]).0)
}

/// Everything the search keeps true of its mutable state: grid/log consistency,
/// the placed count mirrors the log, the occupied cell count mirrors the placed
/// volume, and remaining counts plus placements add up to the declared total
/// plus the seed.
pub open spec fn search_inv(
    grid: Seq<usize>,
    size: Vec3,
    counts: Seq<usize>,
    pcount: int,
    block_count: int,
    blocks: Seq<Block>,
    pb: Seq<(Block, Vec3)>,
) -> bool {
    &&& grid_matches_log(grid, pb, size)
    &&& pcount == pb.len()
    &&& count_nonzero(grid) == placed_vol(pb)
    &&& counts.len() == blocks.len()
    &&& sum_counts(counts) + pcount == block_count + 1
    &&& log_from_catalog(pb, blocks)
}

/// How many entries of a shape-assignment sequence draw on shape `s`.
pub open spec fn uses_count(shapes: Seq<int>, s: int) -> int
    decreases shapes.len(),
{
    if shapes.len() == 0 {
        0
    } else {
        uses_count(shapes.drop_last(), s) + if shapes.last() == s { 1int } else { 0int }
    }
}

pub proof fn lemma_uses_count_nonneg(shapes: Seq<int>, s: int)
    ensures
        0 <= uses_count(shapes, s),
    decreases shapes.len(),
{
    if shapes.len() > 0 {
        lemma_uses_count_nonneg(shapes.drop_last(), s);
    }
}

/// A shape that some entry draws on is used at least once.
pub proof fn lemma_uses_count_pos(shapes: Seq<int>, s: int, j: int)
    requires
        0 <= j < shapes.len(),
        shapes[j] == s,
    ensures
        uses_count(shapes, s) >= 1,
    decreases shapes.len(),
{
    lemma_uses_count_nonneg(shapes.drop_last(), s);
    if j < shapes.len() - 1 {
        lemma_uses_count_pos(shapes.drop_last(), s, j);
    }
}

/// Dropping one entry lowers its shape's usage by one and no other's.
pub proof fn lemma_uses_count_remove(shapes: Seq<int>, s: int, j: int)
    requires
        0 <= j < shapes.len(),
    ensures
        uses_count(shapes.remove(j), s)
            == uses_count(shapes, s) - (if shapes[j] == s { 1int } else { 0int }),
    decreases shapes.len(),
{
    shapes.remove_ensures(j);
    if j == shapes.len() - 1 {
        assert(shapes.remove(j) =~= shapes.drop_last());
    } else {
        shapes.drop_last().remove_ensures(j);
        assert(shapes.remove(j).drop_last() =~= shapes.drop_last().remove(j));
        lemma_uses_count_remove(shapes.drop_last(), s, j);
        assert(shapes.remove(j).last() == shapes.last());
    }
}

/// An extension of the current grid: a list of placements, each an orientation
/// of the catalog shape its assignment entry names, all inside the container,
/// covering only currently empty cells, pairwise disjoint, together covering
/// every empty cell, and drawing on each shape exactly its remaining count.
pub open spec fn ext_wf(
    grid: Seq<usize>,
    size: Vec3,
    counts: Seq<usize>,
    blocks: Seq<Block>,
    ext: Seq<(Block, Vec3)>,
    shapes: Seq<int>,
) -> bool {
    &&& shapes.len() == ext.len()
    &&& forall|j: int| 0 <= j < ext.len() ==> placement_in_bounds((#[trigger] ext[j]).1, ext[j].0, size)
    &&& forall|j: int|
        0 <= j < ext.len()
            ==> 0 <= #[trigger] shapes[j] < blocks.len()
                && crate::data_structs::spec_rotations(blocks[shapes[j]]).contains(ext[j].0)
    &&& forall|j: int, i: int|
        0 <= j < ext.len() && 0 <= i < grid.len()
            && #[trigger] covers_index(ext[j].1, ext[j].0, size, i) ==> grid[i] == 0
    &&& forall|j1: int, j2: int, i: int|
        0 <= j1 < ext.len() && 0 <= j2 < ext.len() && j1 != j2 && 0 <= i < grid.len()
            ==> !(#[trigger] covers_index(ext[j1].1, ext[j1].0, size, i)
                && #[trigger] covers_index(ext[j2].1, ext[j2].0, size, i))
    &&& forall|i: int|
        0 <= i < grid.len() && #[trigger] grid[i] == 0
            ==> exists|j: int| 0 <= j < ext.len() && #[trigger] covers_index(ext[j].1, ext[j].0, size, i)
    &&& forall|s: int| 0 <= s < counts.len() ==> #[trigger] counts[s] == uses_count(shapes, s)
}

/// The empty region of the grid can be tiled exactly by the remaining block
/// multiset, every instance used.
pub open spec fn tileable(grid: Seq<usize>, size: Vec3, counts: Seq<usize>, blocks: Seq<Block>) -> bool {
    exists|ext: Seq<(Block, Vec3)>, shapes: Seq<int>|
        #[trigger] ext_wf(grid, size, counts, blocks, ext, shapes)
}

/// Some exact tiling of the empty region anchors a block drawn from shape `s`
/// at position `p`.
pub open spec fn ext_anchors_shape(
    grid: Seq<usize>,
    size: Vec3,
    counts: Seq<usize>,
    blocks: Seq<Block>,
    s: int,
    p: Vec3,
) -> bool {
    exists|ext: Seq<(Block, Vec3)>, shapes: Seq<int>, j: int|
        #![trigger ext_wf(grid, size, counts, blocks, ext, shapes), shapes[j]]
        ext_wf(grid, size, counts, blocks, ext, shapes)
            && 0 <= j < ext.len() && shapes[j] == s && ext[j].1 == p
}

/// Some exact tiling of the empty region places exactly the orientation `rot`
/// of shape `s` at position `p`.
pub open spec fn ext_anchors_rot(
    grid: Seq<usize>,
    size: Vec3,
    counts: Seq<usize>,
    blocks: Seq<Block>,
    s: int,
    rot: Block,
    p: Vec3,
) -> bool {
    exists|ext: Seq<(Block, Vec3)>, shapes: Seq<int>, j: int|
        #![trigger ext_wf(grid, size, counts, blocks, ext, shapes), shapes[j]]
        ext_wf(grid, size, counts, blocks, ext, shapes)
            && 0 <= j < ext.len() && shapes[j] == s && ext[j] == (rot, p)
}

/// In any exact tiling of the empty region, the scan-first empty cell carries
/// the anchor of one of the tiling's placements: a block covering it must be
/// anchored no later in scan order, and every earlier cell is filled.
pub proof fn lemma_ext_anchor_at_first_empty(
    grid: Seq<usize>,
    size: Vec3,
    counts: Seq<usize>,
    blocks: Seq<Block>,
    ext: Seq<(Block, Vec3)>,
    shapes: Seq<int>,
    p: Vec3,
)
    requires
        ext_wf(grid, size, counts, blocks, ext, shapes),
        grid.len() == container_vol(size),
        in_bounds(p, size),
        grid[pos_index(p, size)] == 0,
        forall|q: Vec3| in_bounds(q, size) && scan_lt(q, p) ==> grid[#[trigger] pos_index(q, size)] != 0,
    ensures
        exists|j: int| 0 <= j < ext.len() && (#[trigger] ext[j]).1 == p,
{
    lemma_pos_index_encode(p, size);
    let i = pos_index(p, size);
    assert(grid[i] == 0);
    let j = choose|j: int| 0 <= j < ext.len() && #[trigger] covers_index(ext[j].1, ext[j].0, size, i);
    let q = ext[j].1;
    let blk = ext[j].0;
    assert(placement_in_bounds(q, blk, size));
    assert(covers_at(q, blk, p.0 as int, p.1 as int, p.2 as int));
    assert(in_bounds(q, size));
    lemma_pos_index_encode(q, size);
    assert(covers_index(q, blk, size, pos_index(q, size)));
    assert(grid[pos_index(q, size)] == 0);
    if q != p {
        assert(scan_lt(q, p));
        assert(false);
    }
    assert(ext[j].1 == p);
}

/// Committing one placement of an exact tiling leaves the rest of the tiling
/// as an exact tiling of the new state.
pub proof fn lemma_ext_place_step(
    grid: Seq<usize>,
    grid1: Seq<usize>,
    size: Vec3,
    counts: Seq<usize>,
    counts1: Seq<usize>,
    blocks: Seq<Block>,
    ext: Seq<(Block, Vec3)>,
    shapes: Seq<int>,
    j: int,
    label: usize,
)
    requires
        ext_wf(grid, size, counts, blocks, ext, shapes),
        counts.len() == blocks.len(),
        0 <= j < ext.len(),
        label != 0,
        grid1.len() == grid.len(),
        forall|i: int|
            0 <= i < grid1.len()
                ==> grid1[i] == (if covers_index(ext[j].1, ext[j].0, size, i) { label } else { grid[i] }),
        counts1 == counts.update(shapes[j], (counts[shapes[j]] - 1) as usize),
    ensures
        ext_wf(grid1, size, counts1, blocks, ext.remove(j), shapes.remove(j)),
{
    ext.remove_ensures(j);
    shapes.remove_ensures(j);
    lemma_uses_count_pos(shapes, shapes[j], j);
    let ext1 = ext.remove(j);
    let shapes1 = shapes.remove(j);
    assert forall|m: int| 0 <= m < ext1.len() implies (#[trigger] ext1[m]) == ext[if m < j { m } else { m + 1 }]
        && shapes1[m] == shapes[if m < j { m } else { m + 1 }] by {}
    assert forall|m: int, i: int|
        0 <= m < ext1.len() && 0 <= i < grid1.len()
            && #[trigger] covers_index(ext1[m].1, ext1[m].0, size, i) implies grid1[i] == 0 by {
        let m0: int = if m < j { m } else { m + 1 };
        assert(covers_index(ext[m0].1, ext[m0].0, size, i));
        assert(grid[i] == 0);
        assert(!covers_index(ext[j].1, ext[j].0, size, i));
    }
    assert forall|i: int| 0 <= i < grid1.len() && #[trigger] grid1[i] == 0
        implies exists|m: int| 0 <= m < ext1.len() && #[trigger] covers_index(ext1[m].1, ext1[m].0, size, i) by {
        assert(grid[i] == 0);
        assert(!covers_index(ext[j].1, ext[j].0, size, i));
        let m0 = choose|m0: int| 0 <= m0 < ext.len() && #[trigger] covers_index(ext[m0].1, ext[m0].0, size, i);
        assert(m0 != j);
        let m: int = if m0 < j { m0 } else { m0 - 1 };
        assert(ext1[m] == ext[m0]);
        assert(covers_index(ext1[m].1, ext1[m].0, size, i));
    }
    assert forall|s: int| 0 <= s < counts1.len() implies #[trigger] counts1[s] == uses_count(shapes1, s) by {
        lemma_uses_count_remove(shapes, s, j);
    }
}

/// A remaining multiset with at least one instance cannot tile the empty
/// region of a grid with no empty cell.
pub proof fn lemma_ext_needs_empty_cell(
    grid: Seq<usize>,
    size: Vec3,
    counts: Seq<usize>,
    blocks: Seq<Block>,
    s: int,
)
    requires
        tileable(grid, size, counts, blocks),
        grid.len() == container_vol(size),
        0 <= s < counts.len(),
        counts[s] >= 1,
    ensures
        exists|q: Vec3| in_bounds(q, size) && grid[#[trigger] pos_index(q, size)] == 0,
{
    let (ext, shapes): (Seq<(Block, Vec3)>, Seq<int>) = choose|ext: Seq<(Block, Vec3)>, shapes: Seq<int>|
        #[trigger] ext_wf(grid, size, counts, blocks, ext, shapes);
    if uses_count(shapes, s) == 0 {
        assert(counts[s] == 0);
        assert(false);
    }
    let j = lemma_uses_count_some_index(shapes, s);
    let q = ext[j].1;
    assert(placement_in_bounds(q, ext[j].0, size));
    assert(in_bounds(q, size));
    lemma_pos_index_encode(q, size);
    assert(covers_index(q, ext[j].0, size, pos_index(q, size)));
    assert(grid[pos_index(q, size)] == 0);
}

/// A shape with positive usage is drawn on by some entry.
pub proof fn lemma_uses_count_some_index(shapes: Seq<int>, s: int) -> (j: int)
    requires
        uses_count(shapes, s) >= 1,
    ensures
        0 <= j < shapes.len(),
        shapes[j] == s,
    decreases shapes.len(),
{
    if shapes.len() == 0 {
        assert(false);
        0
    } else if shapes.last() == s {
        shapes.len() - 1
    } else {
        lemma_uses_count_some_index(shapes.drop_last(), s)
    }
}

/// The place/undo inverse law. `do_place` turns a grid in which the placement
/// fits into one whose covered cells carry the new label, and `undo_place`
/// clears exactly the covered cells; for any valid (position, rotation) pair
/// the two compose to the identity on the grid buffer. (The placed count and
/// the log restore trivially: increment then decrement, push then pop.)
pub proof fn lemma_place_undo_inverse(
    grid0: Seq<usize>,
    grid1: Seq<usize>,
    grid2: Seq<usize>,
    pos: Vec3,
    block: Block,
    size: Vec3,
    label: usize,
)
    requires
        can_place(grid0, pos, block, size),
        grid1.len() == grid0.len(),
        grid2.len() == grid1.len(),
        forall|i: int|
            0 <= i < grid1.len()
                ==> grid1[i] == (if covers_index(pos, block, size, i) { label } else { grid0[i] }),
        forall|i: int|
            0 <= i < grid2.len()
                ==> grid2[i] == (if covers_index(pos, block, size, i) { 0usize } else { grid1[i] }),
    ensures
        grid2 == grid0,
{
    assert forall|i: int| 0 <= i < grid2.len() implies grid2[i] == grid0[i] by {
        if covers_index(pos, block, size, i) {
            assert(grid0[i] == 0);
        }
    }
    assert(grid2 =~= grid0);
}

/// Committing one placeable block: decrement its shape's count, append the
/// log entry, label its cells: carries the search invariant from the old
/// state to the new one and conserves the total volume accounted for.
pub proof fn lemma_place_preserves_inv(
    grid0: Seq<usize>,
    grid1: Seq<usize>,
    size: Vec3,
    counts0: Seq<usize>,
    counts1: Seq<usize>,
    pcount0: int,
    block_count: int,
    blocks: Seq<Block>,
    s: int,
    rotation: Block,
    pos: Vec3,
    pb0: Seq<(Block, Vec3)>,
)
    requires
        search_inv(grid0, size, counts0, pcount0, block_count, blocks, pb0),
        0 <= s < blocks.len(),
        counts0[s] >= 1,
        counts1 == counts0.update(s, (counts0[s] - 1) as usize),
        crate::data_structs::spec_rotations(blocks[s]).contains(rotation),
        block_vol(rotation) == block_vol(blocks[s]),
        can_place(grid0, pos, rotation, size),
        grid1.len() == grid0.len(),
        forall|i: int|
            0 <= i < grid1.len()
                ==> grid1[i] == (if covers_index(pos, rotation, size, i) {
                    (pcount0 + 1) as usize
                } else {
                    grid0[i]
                }),
        count_nonzero(grid1) == count_nonzero(grid0) + block_vol(rotation),
        0 <= pcount0,
        pcount0 + 1 <= usize::MAX,
    ensures
        search_inv(grid1, size, counts1, pcount0 + 1, block_count, blocks, pb0.push((rotation, pos))),
        placed_vol(pb0.push((rotation, pos))) + remaining_vol(counts1, blocks)
            == placed_vol(pb0) + remaining_vol(counts0, blocks),
{
    let pb1 = pb0.push((rotation, pos));
    lemma_placed_vol_push(pb0, (rotation, pos));
    lemma_sum_counts_update(counts0, s, (counts0[s] - 1) as usize);
    lemma_remaining_vol_update(counts0, blocks, s, (counts0[s] - 1) as usize);
    assert((counts0[s] - 1) * block_vol(blocks[s]) == counts0[s] * block_vol(blocks[s]) - block_vol(blocks[s]))
        by (nonlinear_arith);
    assert forall|k: int| 0 <= k < pb1.len() implies placement_in_bounds((#[trigger] pb1[k]).1, pb1[k].0, size) by {
        if k < pb0.len() {
            assert(pb1[k] == pb0[k]);
            assert(placement_in_bounds(pb0[k].1, pb0[k].0, size));
        } else {
            assert(pb1[k] == (rotation, pos));
        }
    }
    assert forall|k: int, i: int|
        0 <= k < pb1.len() && 0 <= i < grid1.len() && covers_index((#[trigger] pb1[k]).1, pb1[k].0, size, i)
        implies #[trigger] grid1[i] == k + 1 by {
        if k < pb0.len() {
            assert(pb1[k] == pb0[k]);
            assert(covers_index(pb0[k].1, pb0[k].0, size, i));
            assert(grid0[i] == k + 1);
            assert(!covers_index(pos, rotation, size, i));
        } else {
            assert(pb1[k] == (rotation, pos));
            assert(grid1[i] == pcount0 + 1);
            assert(k == pb0.len() && pcount0 == pb0.len());
        }
    }
    assert forall|i: int| 0 <= i < grid1.len() && #[trigger] grid1[i] != 0
        implies 1 <= grid1[i] <= pb1.len()
            && covers_index(pb1[grid1[i] - 1].1, pb1[grid1[i] - 1].0, size, i) by {
        if covers_index(pos, rotation, size, i) {
            assert(grid1[i] == pcount0 + 1);
            assert(pb1[pcount0] == (rotation, pos));
        } else {
            assert(grid1[i] == grid0[i]);
            assert(1 <= grid0[i] <= pb0.len() && covers_index(pb0[grid0[i] - 1].1, pb0[grid0[i] - 1].0, size, i));
            assert(pb1[grid1[i] - 1] == pb0[grid0[i] - 1]);
        }
    }
    assert forall|k: int| 1 <= k < pb1.len()
        implies exists|s2: int|
            0 <= s2 < blocks.len()
                && crate::data_structs::spec_rotations(blocks[s2]).contains((#[trigger] pb1[k]).0) by {
        if k < pb0.len() {
            assert(pb1[k] == pb0[k]);
            assert(exists|s2: int|
                0 <= s2 < blocks.len()
                    && crate::data_structs::spec_rotations(blocks[s2]).contains((pb0[k]).0));
        } else {
            assert((pb1[k]).0 == rotation);
            assert(crate::data_structs::spec_rotations(blocks[s]).contains(rotation));
        }
    }
}

/// A completely solved grid: consistent with its log and with no cell left empty,
/// every placement after the seed drawn from the catalog. Together with
/// `grid_matches_log` this says the logged placements exactly partition the
/// container.
pub open spec fn complete_packing(grid: Seq<usize>, pb: Seq<(Block, Vec3)>, size: Vec3, blocks: Seq<Block>) -> bool {
    &&& grid_matches_log(grid, pb, size)
    &&& forall|i: int| 0 <= i < grid.len() ==> #[trigger] grid[i] != 0
    &&& log_from_catalog(pb, blocks)
}

} // verus!
