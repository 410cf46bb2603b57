//! Core data types: grid positions, block shapes with their axis-aligned
//! rotations, problem parameters and solutions.

use vstd::prelude::*;

verus! {

/// A block shape: an ordered triple of positive integer extents along x, y, z.
#[derive(Debug, PartialEq, Eq, Hash, Copy, Clone, PartialOrd, Ord)]
pub struct Block(pub usize, pub usize, pub usize);

/// A grid coordinate (x, y, z).
#[derive(Debug, PartialEq, Eq, Hash, Copy, Clone, PartialOrd, Ord)]
pub struct Vec3(pub usize, pub usize, pub usize);

/// The volume of a block, as a mathematical integer.
pub open spec fn block_vol(b: Block) -> int {
    b.0 * b.1 * b.2
}

impl Vec3 {
    /// Converts a plain vector of exactly three coordinates into a `Vec3`.
    pub fn from_vec(vec: &Vec<usize>) -> (r: Result<Vec3, ConversionError>)
        ensures
            vec@.len() == 3 ==> r == Ok::<Vec3, ConversionError>(Vec3(vec@[0], vec@[1], vec@[2])),
            vec@.len() != 3 ==> r == Err::<Vec3, ConversionError>(ConversionError::WrongLength),
    {
        if vec.len() == 3 {
            Ok(Vec3(vec[0], vec[1], vec[2]))
        } else {
            Err(ConversionError::WrongLength)
        }
    }
}

/// Error for a triple conversion whose input does not have exactly three entries.
#[derive(Debug, PartialEq, Eq, Copy, Clone)]
pub enum ConversionError {
    WrongLength,
}

impl Block {
    /// Converts a plain vector of exactly three extents into a `Block`.
    pub fn from_vec(vec: &Vec<usize>) -> (r: Result<Block, ConversionError>)
        ensures
            vec@.len() == 3 ==> r == Ok::<Block, ConversionError>(Block(vec@[0], vec@[1], vec@[2])),
            vec@.len() != 3 ==> r == Err::<Block, ConversionError>(ConversionError::WrongLength),
    {
        if vec.len() == 3 {
            Ok(Block(vec[0], vec[1], vec[2]))
        } else {
            Err(ConversionError::WrongLength)
        }
    }

    /// The distinct axis-aligned orientations of this block: 1 when all three
    /// extents are equal, the 3 cyclic permutations when exactly two are equal,
    /// and all 6 permutations when the extents are pairwise distinct.
    pub fn get_rotations(self: &Block) -> (r: Vec<Block>)
        ensures
            r@ == spec_rotations(*self),
    {
        if self.0 == self.1 && self.1 == self.2 {
            vec![Block(self.0, self.1, self.2)]
        } else if self.0 == self.1 || self.1 == self.2 || self.0 == self.2 {
            vec![Block(self.0, self.1, self.2), Block(self.1, self.2, self.0), Block(self.2, self.0, self.1)]
        } else {
            vec![
                Block(self.0, self.1, self.2),
                Block(self.0, self.2, self.1),
                Block(self.1, self.0, self.2),
                Block(self.1, self.2, self.0),
                Block(self.2, self.0, self.1),
                Block(self.2, self.1, self.0),
            ]
        }
    }
}

/// The rotation list of a block, in the order the search tries them.
pub open spec fn spec_rotations(b: Block) -> Seq<Block> {
    if b.0 == b.1 && b.1 == b.2 {
        seq![Block(b.0, b.1, b.2)]
    } else if b.0 == b.1 || b.1 == b.2 || b.0 == b.2 {
        seq![Block(b.0, b.1, b.2), Block(b.1, b.2, b.0), Block(b.2, b.0, b.1)]
    } else {
        seq![
            Block(b.0, b.1, b.2),
            Block(b.0, b.2, b.1),
            Block(b.1, b.0, b.2),
            Block(b.1, b.2, b.0),
            Block(b.2, b.0, b.1),
            Block(b.2, b.1, b.0),
        ]
    }
}

/// Every rotation of a block is a permutation of its extents, so it keeps the
/// block's volume, and extents stay positive.
pub proof fn lemma_rotations_preserve_volume(b: Block)
    ensures
        forall|t: int| 0 <= t < spec_rotations(b).len() ==> block_vol(#[trigger] spec_rotations(b)[t]) == block_vol(b),
        (b.0 >= 1 && b.1 >= 1 && b.2 >= 1) ==> forall|t: int| 0 <= t < spec_rotations(b).len()
            ==> (#[trigger] spec_rotations(b)[t]).0 >= 1 && spec_rotations(b)[t].1 >= 1 && spec_rotations(b)[t].2 >= 1,
{
    let x = b.0;
    let y = b.1;
    let z = b.2;
    assert(x * y * z == x * z * y && x * y * z == y * x * z && x * y * z == y * z * x
        && x * y * z == z * x * y && x * y * z == z * y * x) by (nonlinear_arith);
}

/// Rotation counts: a cube has exactly 1 orientation, a block with exactly two
/// equal extents exactly 3, one with pairwise distinct extents exactly 6, and
/// the list never repeats an orientation.
pub proof fn lemma_rotation_counts(b: Block)
    ensures
        (b.0 == b.1 && b.1 == b.2) ==> spec_rotations(b).len() == 1,
        ((b.0 == b.1 || b.1 == b.2 || b.0 == b.2) && !(b.0 == b.1 && b.1 == b.2))
            ==> spec_rotations(b).len() == 3,
        (b.0 != b.1 && b.1 != b.2 && b.0 != b.2) ==> spec_rotations(b).len() == 6,
        forall|i: int, j: int|
            0 <= i < spec_rotations(b).len() && 0 <= j < spec_rotations(b).len() && i != j
                ==> spec_rotations(b)[i] != spec_rotations(b)[j],
{
}

/// The canonical form of a block: the same extents sorted in descending
/// order. Two blocks that are permutations of each other share one canonical
/// form.
pub open spec fn canon_block(b: Block) -> Block {
    if b.0 >= b.1 && b.1 >= b.2 {
        Block(b.0, b.1, b.2)
    } else if b.0 >= b.2 && b.2 >= b.1 {
        Block(b.0, b.2, b.1)
    } else if b.1 >= b.0 && b.0 >= b.2 {
        Block(b.1, b.0, b.2)
    } else if b.1 >= b.2 && b.2 >= b.0 {
        Block(b.1, b.2, b.0)
    } else if b.2 >= b.0 && b.0 >= b.1 {
        Block(b.2, b.0, b.1)
    } else {
        Block(b.2, b.1, b.0)
    }
}

/// Canonicalizes a block by sorting its extents in descending order.
pub fn canonical_block(b: &Block) -> (r: Block)
    ensures
        r == canon_block(*b),
        r.0 >= r.1 >= r.2,
        (b.0 >= 1 && b.1 >= 1 && b.2 >= 1) ==> (r.0 >= 1 && r.1 >= 1 && r.2 >= 1),
{
    if b.0 >= b.1 && b.1 >= b.2 {
        Block(b.0, b.1, b.2)
    } else if b.0 >= b.2 && b.2 >= b.1 {
        Block(b.0, b.2, b.1)
    } else if b.1 >= b.0 && b.0 >= b.2 {
        Block(b.1, b.0, b.2)
    } else if b.1 >= b.2 && b.2 >= b.0 {
        Block(b.1, b.2, b.0)
    } else if b.2 >= b.0 && b.0 >= b.1 {
        Block(b.2, b.0, b.1)
    } else {
        Block(b.2, b.1, b.0)
    }
}

/// How many of the first n declared blocks canonicalize to b.
pub open spec fn canon_count_prefix(blocks: Seq<Block>, b: Block, n: int) -> int
    decreases n,
{
    if n <= 0 {
        0
    } else {
        canon_count_prefix(blocks, b, n - 1) + if canon_block(blocks[n - 1]) == b { 1int } else { 0int }
    }
}

/// How many declared blocks canonicalize to b: the shape's input multiplicity.
pub open spec fn canon_count(blocks: Seq<Block>, b: Block) -> int {
    canon_count_prefix(blocks, b, blocks.len() as int)
}

/// A shape no declared block canonicalizes to has multiplicity zero.
pub proof fn lemma_canon_count_absent(blocks: Seq<Block>, b: Block, n: int)
    requires
        n <= blocks.len(),
        forall|i: int| 0 <= i < n ==> canon_block(#[trigger] blocks[i]) != b,
    ensures
        canon_count_prefix(blocks, b, n) == 0,
    decreases n,
{
    if n > 0 {
        lemma_canon_count_absent(blocks, b, n - 1);
    }
}

/// One solve attempt's input: container size, declared block count, the
/// catalog of distinct shapes in priority order, the remaining instance count
/// of each shape, and each shape's precomputed rotations. The three catalog
/// vectors run in parallel: entry `s` of each describes the same shape.
#[derive(Debug, Clone)]
pub struct ProblemParams {
    pub size: Vec3,
    pub block_count: usize,
    pub unique_blocks: Vec<Block>,
    pub block_counter: Vec<usize>,
    pub block_rotations: Vec<Vec<Block>>,
}

/// A found packing: the final voxel grid (flat, row-major) and the placements
/// in the order they were committed.
#[derive(Debug, Clone)]
pub struct Solution {
    pub grid: Vec<usize>,
    pub placed_blocks: Vec<(Block, Vec3)>,
}

} // verus!
