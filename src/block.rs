use vstd::prelude::*;
use rand::Rng;
use crate::types::{Direction, Position};

verus! {

/// A single block: the cell it occupies and how it is moving.
#[derive(Debug, Clone, Copy)]
pub struct Block {
    pub position: Position,
    pub falling: bool,
    /// Set while the player moves the block sideways with them.
    pub carried: bool,
    /// The direction the block is carried in, while it is carried.
    pub carrying_direction: Option<Direction>,
}

/// A block that has just appeared at `position`.
pub open spec fn fresh_block(position: Position) -> Block {
    Block { position, falling: true, carried: false, carrying_direction: None }
}

/// The block stands on cell `(x, y)`.
pub open spec fn at(b: Block, x: int, y: int) -> bool {
    b.position.0 == x && b.position.1 == y
}

/// Some block of `bs` stands on `(x, y)`.
pub open spec fn occupied(bs: Seq<Block>, x: int, y: int) -> bool {
    exists|i: int| 0 <= i < bs.len() && #[trigger] at(bs[i], x, y)
}

/// Some resting (not falling) block of `bs` stands on `(x, y)`.
pub open spec fn resting_at(bs: Seq<Block>, x: int, y: int) -> bool {
    exists|i: int| 0 <= i < bs.len() && !bs[i].falling && #[trigger] at(bs[i], x, y)
}

impl Block {
    pub fn new(position: Position) -> (b: Block)
        ensures
            b == fresh_block(position),
    {
        Block { position, falling: true, carried: false, carrying_direction: None }
    }
}

/// Whether some block of `blocks` stands on `(x, y)`.
pub fn any_block_at(blocks: &[Block], x: usize, y: usize) -> (r: bool)
    ensures
        r == occupied(blocks@, x as int, y as int),
{
    let mut i: usize = 0;
    while i < blocks.len()
        invariant
            0 <= i <= blocks@.len(),
            forall|j: int| 0 <= j < i ==> !at(#[trigger] blocks@[j], x as int, y as int),
        decreases blocks.len() - i,
    {
        if blocks[i].position.0 == x && blocks[i].position.1 == y {
            assert(at(blocks@[i as int], x as int, y as int));
            return true;
        }
        i = i + 1;
    }
    false
}

/// Whether some resting block of `blocks` stands on `(x, y)`.
pub fn any_resting_at(blocks: &[Block], x: usize, y: usize) -> (r: bool)
    ensures
        r == resting_at(blocks@, x as int, y as int),
{
    let mut i: usize = 0;
    while i < blocks.len()
        invariant
            0 <= i <= blocks@.len(),
            forall|j: int|
                0 <= j < i ==> !(!blocks@[j].falling && at(#[trigger] blocks@[j], x as int, y as int)),
        decreases blocks.len() - i,
    {
        if !blocks[i].falling && blocks[i].position.0 == x && blocks[i].position.1 == y {
            assert(at(blocks@[i as int], x as int, y as int));
            return true;
        }
        i = i + 1;
    }
    false
}

/// Relies on rand's `thread_rng().gen_range(0..n)`: a value in `0..n`, which
/// panics on an empty range.
#[verifier::external_body]
fn random_below(n: usize) -> (r: usize)
    requires
        n > 0,
    ensures
        r < n,
{
    rand::thread_rng().gen_range(0..n)
}

/// A new falling block at a random column of the top row.
pub fn spawn_random_block(grid_size: usize) -> (b: Block)
    requires
        grid_size > 0,
    ensures
        b.position.0 < grid_size,
        b.position.1 == 0,
        b.falling,
        b == fresh_block(b.position),
{
    let x = random_below(grid_size);
    Block::new((x, 0))
}

} // verus!
